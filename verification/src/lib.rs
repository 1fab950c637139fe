//! Cumulative scoring for ten-pin bowling games.
//!
//! A game is an ordered, non-empty sequence of frames, each recorded as a
//! pair of roll pin counts; a strike is stored as `(10, 0)`. The scorer walks
//! the frames once and returns the running total credited through each frame,
//! reading strike and spare bonuses ahead from the following frame or two.
//! Bonus rolls earned in the true final frame are supplied by the caller as
//! trailing synthetic frames, which the scan then also scores on their own.
//!
//! One quirk of the scan is kept deliberately: a strike whose following frame
//! records two strike-valued rolls `(10, 10)` is credited its full thirty
//! pins and then closes the scan, so the score sequence can be shorter than
//! the game.

use vstd::prelude::*;

verus! {

/// Pins knocked down by the two rolls of a frame together.
pub open spec fn frame_pins(f: (usize, usize)) -> int {
    f.0 + f.1
}

/// Every roll of the game knocks down at most ten pins.
pub open spec fn valid_rolls(s: Seq<(usize, usize)>) -> bool {
    forall|j: int| 0 <= j < s.len() ==> (#[trigger] s[j]).0 <= 10 && s[j].1 <= 10
}

/// Whether the scan, after crediting the frame at `i`, moves on to the next
/// frame. It stops at the final recorded frame, and it stops early after a
/// strike whose following frame records two strike-valued rolls.
pub open spec fn scan_continues(s: Seq<(usize, usize)>, i: int) -> bool {
    i < s.len() - 1 && !(frame_pins(s[i]) == 10 && s[i].0 == 10 && s.len() != 2
        && s[i + 1].0 == 10 && s[i + 1].1 == 10)
}

/// The pins credited to the frame at `i`, bonus rolls included. The branches
/// are tried in order: final recorded frame (no lookahead), open frame,
/// strike, spare.
pub open spec fn frame_credit(s: Seq<(usize, usize)>, i: int) -> int {
    if i == s.len() - 1 {
        frame_pins(s[i])
    } else if frame_pins(s[i]) != 10 {
        frame_pins(s[i])
    } else if s[i].0 == 10 {
        if s.len() == 2 {
            10 + frame_pins(s[i + 1])
        } else if s[i + 1].0 == 10 && s[i + 1].1 == 10 {
            30
        } else if s[i + 1].0 == 10 {
            20 + s[i + 2].0
        } else {
            10 + frame_pins(s[i + 1])
        }
    } else {
        10 + s[i + 1].0
    }
}

/// The cumulative totals the scan produces from frame `i` onward, starting
/// from the running total `prev`.
pub open spec fn scores_from(s: Seq<(usize, usize)>, i: int, prev: int) -> Seq<int>
    decreases s.len() - i,
{
    if i < 0 || i >= s.len() {
        Seq::empty()
    } else if scan_continues(s, i) {
        seq![prev + frame_credit(s, i)]
            + scores_from(s, i + 1, prev + frame_credit(s, i))
    } else {
        seq![prev + frame_credit(s, i)]
    }
}

/// The whole score sequence of a game: the scan started at the first frame
/// with a running total of zero.
pub open spec fn game_scores(s: Seq<(usize, usize)>) -> Seq<int> {
    scores_from(s, 0, 0)
}

/// Crediting the frame at `i` does not read past the end of the game. Only
/// the strike-then-strike branch looks two frames ahead; every other branch
/// stays within the bounds its guards already establish.
pub open spec fn frame_lookahead_ok(s: Seq<(usize, usize)>, i: int) -> bool {
    i < s.len() - 1 && frame_pins(s[i]) == 10 && s[i].0 == 10 && s.len() != 2
        && s[i + 1].0 == 10 && s[i + 1].1 != 10 ==> i + 2 < s.len()
}

/// Every frame the scan reaches from `i` onward can be credited without
/// reading past the end of the game.
pub open spec fn lookahead_ok(s: Seq<(usize, usize)>, i: int) -> bool
    decreases s.len() - i,
{
    if i < 0 || i >= s.len() {
        true
    } else {
        frame_lookahead_ok(s, i) && (scan_continues(s, i) ==> lookahead_ok(s, i + 1))
    }
}

/// A vector of totals read as the mathematical sequence of its values.
pub open spec fn to_ints(q: Seq<usize>) -> Seq<int> {
    q.map_values(|v: usize| v as int)
}

/// A game the scorer accepts: at least one frame, rolls of at most ten pins,
/// every reachable lookahead in range, and a pin count small enough that no
/// running total can outgrow `usize`.
pub open spec fn scoreable(s: Seq<(usize, usize)>) -> bool {
    &&& s.len() >= 1
    &&& valid_rolls(s)
    &&& lookahead_ok(s, 0)
    &&& 30 * s.len() <= usize::MAX
}

/// Scores a game: one cumulative total per frame the scan reaches, computed
/// exactly as `game_scores` lays the scan out.
pub fn compute_score(points: Vec<(usize, usize)>) -> (result: Vec<usize>)
    requires
        scoreable(points@),
    ensures
        to_ints(result@) == game_scores(points@),
        result@.len() == game_scores(points@).len(),
        forall|j: int| 0 <= j < result@.len() ==> result@[j] as int == game_scores(points@)[j],
{
    let ghost s = points@;
    let mut result: Vec<usize> = Vec::new();
    let mut previous_result: usize = 0;
    let mut i: usize = 0;
    while i < points.len()
        invariant
            points@ == s,
            s.len() >= 1,
            valid_rolls(s),
            30 * s.len() <= usize::MAX,
            i <= s.len(),
            lookahead_ok(s, i as int),
            previous_result <= 30 * i,
            to_ints(result@) + scores_from(s, i as int, previous_result as int)
                == game_scores(s),
        decreases s.len() - i,
    {
        let ghost i0: int = i as int;
        let ghost p0: int = previous_result as int;
        let ghost r0: Seq<usize> = result@;
        proof {
            assert(s[i0].0 <= 10 && s[i0].1 <= 10);
            assert(30 * (i0 + 1) <= 30 * s.len());
        }
        let frame_score: usize = points[i].0 + points[i].1;

        if i == points.len() - 1 {
            // final recorded frame: no bonus lookahead
            result.push(previous_result + frame_score);
            i = points.len();
            proof {
                assert(!scan_continues(s, i0));
                assert(frame_credit(s, i0) == frame_pins(s[i0]));
                assert(to_ints(result@) =~= to_ints(r0) + scores_from(s, i0, p0));
                assert(to_ints(result@) + scores_from(s, i as int, previous_result as int)
                    =~= to_ints(result@));
            }
        } else if frame_score != 10 {
            // open frame
            result.push(previous_result + frame_score);
            previous_result = previous_result + frame_score;
            i = i + 1;
            proof {
                assert(scan_continues(s, i0));
                assert(frame_credit(s, i0) == frame_pins(s[i0]));
                assert(to_ints(result@) =~= to_ints(r0) + seq![p0 + frame_credit(s, i0)]);
                assert(to_ints(result@) + scores_from(s, i as int, previous_result as int)
                    =~= to_ints(r0) + scores_from(s, i0, p0));
                assert(lookahead_ok(s, i as int));
            }
        } else if points[i].0 == 10 {
            // strike: the bonus is the next two rolls
            proof {
                assert(s[i0 + 1].0 <= 10 && s[i0 + 1].1 <= 10);
            }
            if points.len() == 2 {
                // only the final frame follows: its pair is the whole bonus
                let credit: usize = 10 + points[i + 1].0 + points[i + 1].1;
                result.push(previous_result + credit);
                previous_result = previous_result + credit;
                i = i + 1;
                proof {
                    assert(scan_continues(s, i0));
                    assert(frame_credit(s, i0) == 10 + frame_pins(s[i0 + 1]));
                    assert(to_ints(result@) =~= to_ints(r0) + seq![p0 + frame_credit(s, i0)]);
                    assert(to_ints(result@) + scores_from(s, i as int, previous_result as int)
                        =~= to_ints(r0) + scores_from(s, i0, p0));
                    assert(lookahead_ok(s, i as int));
                }
            } else if points[i + 1].0 == 10 && points[i + 1].1 == 10 {
                // the next pair records two strikes: credit thirty and stop
                result.push(previous_result + 10 + points[i + 1].0 + points[i + 1].1);
                i = points.len();
                proof {
                    assert(!scan_continues(s, i0));
                    assert(frame_credit(s, i0) == 30);
                    assert(to_ints(result@) =~= to_ints(r0) + scores_from(s, i0, p0));
                    assert(to_ints(result@) + scores_from(s, i as int, previous_result as int)
                        =~= to_ints(result@));
                }
            } else if points[i + 1].0 == 10 {
                // the next frame is a strike: the second bonus roll is the
                // first roll of the frame after it
                proof {
                    assert(frame_lookahead_ok(s, i0));
                    assert(i0 + 2 < s.len());
                    assert(s[i0 + 2].0 <= 10 && s[i0 + 2].1 <= 10);
                }
                let credit: usize = 20 + points[i + 2].0;
                result.push(previous_result + credit);
                previous_result = previous_result + credit;
                i = i + 1;
                proof {
                    assert(scan_continues(s, i0));
                    assert(frame_credit(s, i0) == 20 + s[i0 + 2].0);
                    assert(to_ints(result@) =~= to_ints(r0) + seq![p0 + frame_credit(s, i0)]);
                    assert(to_ints(result@) + scores_from(s, i as int, previous_result as int)
                        =~= to_ints(r0) + scores_from(s, i0, p0));
                    assert(lookahead_ok(s, i as int));
                }
            } else {
                // the next frame is not a strike: its pair is the whole bonus
                let credit: usize = 10 + points[i + 1].0 + points[i + 1].1;
                result.push(previous_result + credit);
                previous_result = previous_result + credit;
                i = i + 1;
                proof {
                    assert(scan_continues(s, i0));
                    assert(frame_credit(s, i0) == 10 + frame_pins(s[i0 + 1]));
                    assert(to_ints(result@) =~= to_ints(r0) + seq![p0 + frame_credit(s, i0)]);
                    assert(to_ints(result@) + scores_from(s, i as int, previous_result as int)
                        =~= to_ints(r0) + scores_from(s, i0, p0));
                    assert(lookahead_ok(s, i as int));
                }
            }
        } else {
            // spare: the bonus is the first roll of the next frame
            proof {
                assert(s[i0 + 1].0 <= 10 && s[i0 + 1].1 <= 10);
            }
            let credit: usize = 10 + points[i + 1].0;
            result.push(previous_result + credit);
            previous_result = previous_result + credit;
            i = i + 1;
            proof {
                assert(scan_continues(s, i0));
                assert(frame_credit(s, i0) == 10 + s[i0 + 1].0);
                assert(to_ints(result@) =~= to_ints(r0) + seq![p0 + frame_credit(s, i0)]);
                assert(to_ints(result@) + scores_from(s, i as int, previous_result as int)
                    =~= to_ints(r0) + scores_from(s, i0, p0));
                assert(lookahead_ok(s, i as int));
            }
        }
    }
    proof {
        assert(scores_from(s, i as int, previous_result as int) =~= Seq::<int>::empty());
        assert(to_ints(result@) =~= to_ints(result@) + Seq::<int>::empty());
    }
    result
}

/// The scan scores every frame from `i` onward: no reachable frame closes it
/// early.
pub open spec fn completes_scan(s: Seq<(usize, usize)>, i: int) -> bool
    decreases s.len() - i,
{
    if i < 0 || i >= s.len() - 1 {
        true
    } else {
        scan_continues(s, i) && completes_scan(s, i + 1)
    }
}

/// Sum of the pins of the first `n` frames, bonuses not counted.
pub open spec fn total_pins(s: Seq<(usize, usize)>, n: int) -> int
    decreases n,
{
    if n <= 0 {
        0
    } else {
        total_pins(s, n - 1) + frame_pins(s[n - 1])
    }
}

proof fn lemma_scores_from_len_bounds(s: Seq<(usize, usize)>, i: int, prev: int)
    requires
        0 <= i <= s.len(),
    ensures
        scores_from(s, i, prev).len() <= s.len() - i,
        i < s.len() ==> scores_from(s, i, prev).len() >= 1,
    decreases s.len() - i,
{
    if i < s.len() && scan_continues(s, i) {
        lemma_scores_from_len_bounds(s, i + 1, prev + frame_credit(s, i));
    }
}

proof fn lemma_scores_from_complete_len(s: Seq<(usize, usize)>, i: int, prev: int)
    requires
        0 <= i <= s.len(),
        completes_scan(s, i),
    ensures
        scores_from(s, i, prev).len() == s.len() - i,
    decreases s.len() - i,
{
    if i < s.len() && scan_continues(s, i) {
        lemma_scores_from_complete_len(s, i + 1, prev + frame_credit(s, i));
    }
}

proof fn lemma_scores_from_non_decreasing(s: Seq<(usize, usize)>, i: int, prev: int)
    ensures
        forall|j: int| 0 <= j < scores_from(s, i, prev).len()
            ==> prev <= #[trigger] scores_from(s, i, prev)[j],
        forall|j: int, k: int| 0 <= j <= k < scores_from(s, i, prev).len()
            ==> scores_from(s, i, prev)[j] <= scores_from(s, i, prev)[k],
    decreases s.len() - i,
{
    if 0 <= i && i < s.len() {
        let c: int = frame_credit(s, i);
        assert(c >= 0);
        if scan_continues(s, i) {
            lemma_scores_from_non_decreasing(s, i + 1, prev + c);
            let q = scores_from(s, i, prev);
            let t = scores_from(s, i + 1, prev + c);
            assert forall|j: int| 0 <= j < q.len() implies prev <= #[trigger] q[j] by {
                if j > 0 {
                    assert(q[j] == t[j - 1]);
                }
            }
            assert forall|j: int, k: int| 0 <= j <= k < q.len() implies q[j] <= q[k] by {
                if 0 < j {
                    assert(q[j] == t[j - 1] && q[k] == t[k - 1]);
                } else if 0 < k {
                    assert(q[k] == t[k - 1]);
                }
            }
        }
    }
}

proof fn lemma_scores_from_open_prefix_sums(s: Seq<(usize, usize)>, i: int, prev: int)
    requires
        0 <= i <= s.len(),
        forall|j: int| i <= j < s.len() ==> frame_pins(#[trigger] s[j]) != 10,
    ensures
        scores_from(s, i, prev).len() == s.len() - i,
        forall|j: int| 0 <= j < s.len() - i ==> #[trigger] scores_from(s, i, prev)[j]
            == prev + total_pins(s, i + j + 1) - total_pins(s, i),
    decreases s.len() - i,
{
    if i < s.len() {
        let c: int = frame_credit(s, i);
        assert(c == frame_pins(s[i]));
        assert(total_pins(s, i + 1) == total_pins(s, i) + frame_pins(s[i]));
        let q = scores_from(s, i, prev);
        if scan_continues(s, i) {
            lemma_scores_from_open_prefix_sums(s, i + 1, prev + c);
            let t = scores_from(s, i + 1, prev + c);
            assert forall|j: int| 0 <= j < s.len() - i implies #[trigger] q[j]
                == prev + total_pins(s, i + j + 1) - total_pins(s, i) by {
                if j > 0 {
                    assert(q[j] == t[j - 1]);
                    assert(t[j - 1] == prev + c + total_pins(s, i + j + 1) - total_pins(s, i + 1));
                }
            }
        } else {
            assert(i == s.len() - 1);
            assert(q[0] == prev + frame_pins(s[i]));
        }
    }
}

/// With no strike and no spare anywhere in the game, every total is simply
/// the sum of the pins of the frames up to and including its own.
pub proof fn lemma_open_game_prefix_sums(s: Seq<(usize, usize)>)
    requires
        s.len() >= 1,
        forall|j: int| 0 <= j < s.len() ==> frame_pins(#[trigger] s[j]) != 10,
    ensures
        game_scores(s).len() == s.len(),
        forall|j: int| 0 <= j < s.len() ==> #[trigger] game_scores(s)[j] == total_pins(s, j + 1),
{
    lemma_scores_from_open_prefix_sums(s, 0, 0);
}

/// Scoring is a pure function of the game: any two score sequences of the
/// same game are the same sequence.
pub proof fn lemma_scoring_deterministic(s: Seq<(usize, usize)>, r1: Seq<int>, r2: Seq<int>)
    requires
        r1 == game_scores(s),
        r2 == game_scores(s),
    ensures
        r1 == r2,
{
}

/// A non-empty game always yields at least one total and never more totals
/// than it has frames; when no reachable frame closes the scan early, it
/// yields exactly one total per frame.
pub proof fn lemma_scores_length(s: Seq<(usize, usize)>)
    requires
        s.len() >= 1,
    ensures
        1 <= game_scores(s).len() <= s.len(),
        completes_scan(s, 0) ==> game_scores(s).len() == s.len(),
{
    lemma_scores_from_len_bounds(s, 0, 0);
    if completes_scan(s, 0) {
        lemma_scores_from_complete_len(s, 0, 0);
    }
}

/// The cumulative totals never decrease along the score sequence.
pub proof fn lemma_scores_non_decreasing(s: Seq<(usize, usize)>)
    ensures
        forall|j: int, k: int| 0 <= j <= k < game_scores(s).len()
            ==> game_scores(s)[j] <= game_scores(s)[k],
{
    lemma_scores_from_non_decreasing(s, 0, 0);
}

/// Checks a game before scoring it: `None` exactly on the games outside the
/// scorer's precondition — an empty game, a roll over ten pins, a strike
/// whose second bonus roll would lie past the end of the game, or a game so
/// long that a running total could outgrow `usize`.
pub fn try_compute_score(points: Vec<(usize, usize)>) -> (result: Option<Vec<usize>>)
    ensures
        match result {
            Some(r) => scoreable(points@) && to_ints(r@) == game_scores(points@),
            None => !scoreable(points@),
        },
{
    let ghost s = points@;
    let n: usize = points.len();
    if n == 0 {
        return None;
    }
    if n.checked_mul(30).is_none() {
        return None;
    }
    let mut j: usize = 0;
    while j < n
        invariant
            points@ == s,
            n == s.len(),
            j <= n,
            forall|k: int| 0 <= k < j ==> (#[trigger] s[k]).0 <= 10 && s[k].1 <= 10,
        decreases n - j,
    {
        if points[j].0 > 10 || points[j].1 > 10 {
            return None;
        }
        j = j + 1;
    }
    let mut i: usize = 0;
    while i < n - 1
        invariant
            points@ == s,
            n == s.len(),
            1 <= n,
            valid_rolls(s),
            i <= n - 1,
            lookahead_ok(s, 0) == lookahead_ok(s, i as int),
        decreases n - i,
    {
        let ghost i0: int = i as int;
        let frame_score: usize = points[i].0 + points[i].1;
        if frame_score == 10 && points[i].0 == 10 && n != 2
            && points[i + 1].0 == 10 {
            if points[i + 1].1 == 10 {
                // the scan stops on this frame, so nothing past it is read
                proof {
                    assert(!scan_continues(s, i0));
                    assert(frame_lookahead_ok(s, i0));
                    assert(lookahead_ok(s, i0));
                    assert(lookahead_ok(s, (n - 1) as int));
                }
                i = n - 1;
            } else if i + 2 >= n {
                // the strike's second bonus roll lies past the end
                proof {
                    assert(!frame_lookahead_ok(s, i0));
                    assert(!lookahead_ok(s, i0));
                }
                return None;
            } else {
                proof {
                    assert(frame_lookahead_ok(s, i0));
                    assert(scan_continues(s, i0));
                }
                i = i + 1;
            }
        } else {
            proof {
                assert(frame_lookahead_ok(s, i0));
                assert(scan_continues(s, i0));
            }
            i = i + 1;
        }
    }
    proof {
        assert(lookahead_ok(s, (n - 1) as int));
        assert(scoreable(s));
    }
    Some(compute_score(points))
}

} // verus!
