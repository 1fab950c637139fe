use bowling::compute_score;
use bowling::try_compute_score;

#[test]
fn test_simple_score() {
    assert_eq!(vec![3, 10, 10], compute_score(vec![(1, 2), (3, 4), (0, 0)]));
}

#[test]
fn test_spare() {
    assert_eq!(vec![15, 28, 32], compute_score(vec![(3, 7), (5, 5), (3, 1)]));
}

#[test]
fn test_another_spare() {
    assert_eq!(
        vec![15, 28, 32, 48, 54],
        compute_score(vec![(5, 5), (5, 5), (3, 1), (5, 5), (6, 0)])
    );
}

#[test]
fn test_short_game_ending_in_spare() {
    assert_eq!(vec![10], compute_score(vec![(5, 5)]));
}

#[test]
fn test_game_ending_in_spare() {
    assert_eq!(vec![5, 7, 17], compute_score(vec![(3, 2), (1, 1), (5, 5)]));
}

#[test]
fn test_game_ending_in_strike() {
    assert_eq!(vec![3, 10, 20], compute_score(vec![(1, 2), (3, 4), (10, 0)]))
}

#[test]
fn test_spare_strike() {
    assert_eq!(vec![20, 34, 38], compute_score(vec![(3, 7), (10, 0), (3, 1)]))
}

#[test]
fn test_spare_ending_in_strike() {
    assert_eq!(
        vec![9, 18, 23, 35, 55, 65],
        compute_score(vec![(1, 8), (3, 6), (3, 2), (7, 3), (2, 8), (10, 0)])
    )
}

#[test]
fn test_spare_strike_then_some() {
    assert_eq!(
        vec![20, 33, 36, 43, 46],
        compute_score(vec![(3, 7), (10, 0), (1, 2), (3, 4), (1, 2)])
    )
}

#[test]
fn test_simple_strike_two_frames_left() {
    assert_eq!(vec![13, 16, 23], compute_score(vec![(10, 0), (1, 2), (3, 4)]))
}

#[test]
fn test_strike_one_frame_left() {
    assert_eq!(vec![13, 16], compute_score(vec![(10, 0), (1, 2)]))
}

#[test]
fn test_strike_no_frames_left() {
    assert_eq!(vec![10], compute_score(vec![(10, 0)]))
}

#[test]
fn test_max_score() {
    assert_eq!(
        vec![30, 60, 90, 120, 150, 180, 210, 240, 270, 300],
        compute_score(vec![
            (10, 0),
            (10, 0),
            (10, 0),
            (10, 0),
            (10, 0),
            (10, 0),
            (10, 0),
            (10, 0),
            (10, 0),
            (10, 0),
            (10, 10)
        ])
    )
}

#[test]
fn test_open_game_is_prefix_sums() {
    // no strike and no spare: every total is the plain running pin sum
    assert_eq!(
        vec![5, 13, 14, 23],
        compute_score(vec![(2, 3), (4, 4), (1, 0), (0, 9)])
    );
}

#[test]
fn test_score_twice_same_result() {
    let game = vec![(3, 7), (10, 0), (1, 2), (3, 4), (1, 2)];
    assert_eq!(compute_score(game.clone()), compute_score(game));
}

#[test]
fn test_totals_never_decrease() {
    let scores = compute_score(vec![(1, 8), (10, 0), (3, 2), (7, 3), (0, 0), (10, 0)]);
    for k in 1..scores.len() {
        assert!(scores[k - 1] <= scores[k]);
    }
}

#[test]
fn test_double_strike_pair_stops_scan() {
    // a (10, 10) pair after a strike is credited and closes the scan, so the
    // frames behind it get no totals of their own
    assert_eq!(vec![30], compute_score(vec![(10, 0), (10, 10), (4, 2)]));
}

#[test]
fn test_strike_before_final_double_pair() {
    // with exactly two frames the whole next pair is the strike's bonus and
    // the pair is then scored again as the final frame
    assert_eq!(vec![30, 50], compute_score(vec![(10, 0), (10, 10)]));
}

#[test]
fn test_try_score_accepts_ordinary_game() {
    assert_eq!(
        Some(vec![15, 28, 32]),
        try_compute_score(vec![(3, 7), (5, 5), (3, 1)])
    );
}

#[test]
fn test_try_score_rejects_empty_game() {
    assert_eq!(None, try_compute_score(vec![]));
}

#[test]
fn test_try_score_rejects_roll_over_ten() {
    assert_eq!(None, try_compute_score(vec![(11, 0), (1, 1)]));
}

#[test]
fn test_try_score_rejects_missing_bonus_frame() {
    // the strike's second bonus roll would lie past the end of the game
    assert_eq!(None, try_compute_score(vec![(1, 1), (10, 0), (10, 5)]));
}

#[test]
fn test_try_score_ignores_frames_after_scan_stops() {
    // the (10, 10) pair closes the scan, so the short lookahead behind it is
    // never reached and the game is still accepted
    assert_eq!(
        Some(vec![30]),
        try_compute_score(vec![(10, 0), (10, 10), (10, 5)])
    );
}
