//! Scoring a guess against a reference: exact matches (black) and color-only matches (white).
use crate::pins::{is_combo, Pins, COLORS, PINS};
use vstd::prelude::*;

verus! {

/// (Black, white): pegs right in color and position, and pegs right in color only.
pub type Score = (u8, u8);

/// Number of positions below `n` where `a` and `b` hold the same color.
pub open spec fn exact_upto(a: Seq<u8>, b: Seq<u8>, n: int) -> nat
    decreases n,
{
    if n <= 0 {
        0
    } else {
        exact_upto(a, b, n - 1) + if a[n - 1] == b[n - 1] { 1nat } else { 0nat }
    }
}

/// Number of positions below `n` where `a` holds color `c` and `b` holds another color.
pub open spec fn leftover_upto(a: Seq<u8>, b: Seq<u8>, c: int, n: int) -> nat
    decreases n,
{
    if n <= 0 {
        0
    } else {
        leftover_upto(a, b, c, n - 1) + if a[n - 1] != b[n - 1] && a[n - 1] == c {
            1nat
        } else {
            0nat
        }
    }
}

/// Pegs of color `c` left unmatched in `a` once exact matches with `b` are set aside.
pub open spec fn leftover(a: Seq<u8>, b: Seq<u8>, c: int) -> nat {
    leftover_upto(a, b, c, PINS as int)
}

/// The smaller of two counts.
pub open spec fn min_nat(x: nat, y: nat) -> nat {
    if x < y {
        x
    } else {
        y
    }
}

/// Color-only matches over the colors below `k`: for each color, the smaller of the two
/// sides' unmatched counts.
pub open spec fn color_upto(a: Seq<u8>, b: Seq<u8>, k: int) -> nat
    decreases k,
{
    if k <= 0 {
        0
    } else {
        color_upto(a, b, k - 1) + min_nat(leftover(a, b, k - 1), leftover(b, a, k - 1))
    }
}

/// Exact matches of `attempt` against `actual`.
pub open spec fn black(attempt: Seq<u8>, actual: Seq<u8>) -> nat {
    exact_upto(attempt, actual, PINS as int)
}

/// Color-only matches of `attempt` against `actual`.
pub open spec fn white(attempt: Seq<u8>, actual: Seq<u8>) -> nat {
    color_upto(attempt, actual, COLORS as int)
}

/// The score that `attempt` earns against `actual`.
pub open spec fn score_of(attempt: Seq<u8>, actual: Seq<u8>) -> Score {
    (black(attempt, actual) as u8, white(attempt, actual) as u8)
}

/// The winning score: every position exact.
pub open spec fn win_score() -> Score {
    (PINS, 0u8)
}

/// A score that some pair of combinations can produce: the counts add up to at most `PINS`,
/// and all but one exact with the last a color-only match cannot happen.
pub open spec fn is_valid_score(s: Score) -> bool {
    &&& s.0 + s.1 <= PINS
    &&& !(s.0 == PINS - 1 && s.1 == 1)
}

proof fn lemma_leftover_bound(a: Seq<u8>, b: Seq<u8>, c: int, n: int)
    requires
        0 <= n,
    ensures
        leftover_upto(a, b, c, n) <= n,
    decreases n,
{
    if n > 0 {
        lemma_leftover_bound(a, b, c, n - 1);
    }
}

proof fn lemma_color_bound(a: Seq<u8>, b: Seq<u8>, k: int)
    requires
        0 <= k,
    ensures
        color_upto(a, b, k) <= PINS * k,
    decreases k,
{
    if k > 0 {
        lemma_color_bound(a, b, k - 1);
        lemma_leftover_bound(a, b, k - 1, PINS as int);
    }
}

/// Number of positions below `n` where `a` and `b` differ and `a` holds a color below `k`.
spec fn mismatch_below(a: Seq<u8>, b: Seq<u8>, k: int, n: int) -> nat
    decreases n,
{
    if n <= 0 {
        0
    } else {
        mismatch_below(a, b, k, n - 1) + if a[n - 1] != b[n - 1] && a[n - 1] < k {
            1nat
        } else {
            0nat
        }
    }
}

/// Sum over the colors below `k` of `a`'s unmatched pegs against `b`.
spec fn leftover_sum(a: Seq<u8>, b: Seq<u8>, k: int) -> nat
    decreases k,
{
    if k <= 0 {
        0
    } else {
        leftover_sum(a, b, k - 1) + leftover(a, b, k - 1)
    }
}

proof fn lemma_mismatch_step(a: Seq<u8>, b: Seq<u8>, k: int, n: int)
    requires
        0 <= n <= a.len(),
        n <= b.len(),
    ensures
        mismatch_below(a, b, k + 1, n) == mismatch_below(a, b, k, n) + leftover_upto(a, b, k, n),
    decreases n,
{
    if n > 0 {
        lemma_mismatch_step(a, b, k, n - 1);
    }
}

proof fn lemma_leftover_sum(a: Seq<u8>, b: Seq<u8>, k: int)
    requires
        0 <= k,
        a.len() == PINS,
        b.len() == PINS,
    ensures
        leftover_sum(a, b, k) == mismatch_below(a, b, k, PINS as int),
    decreases k,
{
    if k == 0 {
        reveal_with_fuel(mismatch_below, 5);
    } else {
        lemma_leftover_sum(a, b, k - 1);
        lemma_mismatch_step(a, b, k - 1, PINS as int);
    }
}

proof fn lemma_color_le_leftover_sum(a: Seq<u8>, b: Seq<u8>, k: int)
    requires
        0 <= k,
    ensures
        color_upto(a, b, k) <= leftover_sum(a, b, k),
    decreases k,
{
    if k > 0 {
        lemma_color_le_leftover_sum(a, b, k - 1);
    }
}

proof fn lemma_color_zero(a: Seq<u8>, b: Seq<u8>, k: int)
    requires
        forall|c: int| 0 <= c < k ==> min_nat(#[trigger] leftover(a, b, c), leftover(b, a, c)) == 0,
    ensures
        color_upto(a, b, k) == 0,
    decreases k,
{
    if k > 0 {
        lemma_color_zero(a, b, k - 1);
    }
}

proof fn lemma_color_congruent(a: Seq<u8>, b: Seq<u8>, a2: Seq<u8>, b2: Seq<u8>, k: int)
    requires
        forall|c: int| #[trigger] leftover(a2, b2, c) == leftover(a, b, c),
        forall|c: int| #[trigger] leftover(b2, a2, c) == leftover(b, a, c),
    ensures
        color_upto(a2, b2, k) == color_upto(a, b, k),
    decreases k,
{
    if k > 0 {
        lemma_color_congruent(a, b, a2, b2, k - 1);
    }
}

/// A combination scored against itself is a win: every position exact, no color-only match.
pub proof fn lemma_score_self(x: Seq<u8>)
    requires
        is_combo(x),
    ensures
        score_of(x, x) == win_score(),
{
    reveal_with_fuel(exact_upto, 5);
    reveal_with_fuel(leftover_upto, 5);
    assert forall|c: int| 0 <= c < COLORS implies min_nat(#[trigger] leftover(x, x, c), leftover(x, x, c)) == 0 by {}
    lemma_color_zero(x, x, COLORS as int);
}

/// Every score is valid: exact and color-only matches add up to at most `PINS`, and all but
/// one position exact with one color-only match never occurs.
pub proof fn lemma_score_valid(attempt: Seq<u8>, actual: Seq<u8>)
    requires
        is_combo(attempt),
        is_combo(actual),
    ensures
        black(attempt, actual) + white(attempt, actual) <= PINS,
        !(black(attempt, actual) == PINS - 1 && white(attempt, actual) == 1),
        is_valid_score(score_of(attempt, actual)),
{
    let (a, b) = (attempt, actual);
    reveal_with_fuel(exact_upto, 5);
    reveal_with_fuel(mismatch_below, 5);
    assert(a[0] < 8 && a[1] < 8 && a[2] < 8 && a[3] < 8);
    lemma_leftover_sum(a, b, COLORS as int);
    lemma_color_le_leftover_sum(a, b, COLORS as int);
    if black(a, b) == PINS - 1 {
        reveal_with_fuel(leftover_upto, 5);
        assert forall|c: int| 0 <= c < COLORS implies min_nat(#[trigger] leftover(a, b, c), leftover(b, a, c)) == 0 by {}
        lemma_color_zero(a, b, COLORS as int);
    }
}

proof fn lemma_exact_symmetric(a: Seq<u8>, b: Seq<u8>, n: int)
    ensures
        exact_upto(a, b, n) == exact_upto(b, a, n),
    decreases n,
{
    if n > 0 {
        lemma_exact_symmetric(a, b, n - 1);
    }
}

proof fn lemma_color_symmetric(a: Seq<u8>, b: Seq<u8>, k: int)
    ensures
        color_upto(a, b, k) == color_upto(b, a, k),
    decreases k,
{
    if k > 0 {
        lemma_color_symmetric(a, b, k - 1);
    }
}

/// Scoring is symmetric: swapping attempt and reference gives the same score.
pub proof fn lemma_score_symmetric(a: Seq<u8>, b: Seq<u8>)
    ensures
        score_of(a, b) == score_of(b, a),
{
    lemma_exact_symmetric(a, b, PINS as int);
    lemma_color_symmetric(a, b, COLORS as int);
}

/// `p` lists each position exactly once.
pub open spec fn is_permutation(p: Seq<int>) -> bool {
    &&& p.len() == PINS
    &&& forall|i: int| 0 <= i < PINS ==> 0 <= #[trigger] p[i] < PINS
    &&& forall|i: int, j: int| 0 <= i < j < PINS ==> #[trigger] p[i] != #[trigger] p[j]
}

/// The combination whose position `i` holds the peg at position `p[i]` of `s`.
pub open spec fn permute(s: Seq<u8>, p: Seq<int>) -> Seq<u8> {
    Seq::new(PINS as nat, |i: int| s[p[i]])
}

/// The score depends on how positions line up: rearranging the positions of both
/// combinations in the same way keeps the score.
#[verifier::rlimit(60)]
#[verifier::spinoff_prover]
pub proof fn lemma_score_permute_both(attempt: Seq<u8>, actual: Seq<u8>, p: Seq<int>)
    requires
        is_combo(attempt),
        is_combo(actual),
        is_permutation(p),
    ensures
        score_of(permute(attempt, p), permute(actual, p)) == score_of(attempt, actual),
{
    let (a, b) = (attempt, actual);
    let (a2, b2) = (permute(a, p), permute(b, p));
    reveal_with_fuel(exact_upto, 5);
    reveal_with_fuel(leftover_upto, 5);
    assert(0 <= p[0] < 4 && 0 <= p[1] < 4 && 0 <= p[2] < 4 && 0 <= p[3] < 4);
    assert(p[0] != p[1] && p[0] != p[2] && p[0] != p[3] && p[1] != p[2] && p[1] != p[3] && p[2] != p[3]);
    assert(a2[0] == a[p[0]] && a2[1] == a[p[1]] && a2[2] == a[p[2]] && a2[3] == a[p[3]]);
    assert(b2[0] == b[p[0]] && b2[1] == b[p[1]] && b2[2] == b[p[2]] && b2[3] == b[p[3]]);
    assert(black(a2, b2) == black(a, b));
    assert forall|c: int| #[trigger] leftover(a2, b2, c) == leftover(a, b, c) by {}
    assert forall|c: int| #[trigger] leftover(b2, a2, c) == leftover(b, a, c) by {}
    lemma_color_congruent(a, b, a2, b2, COLORS as int);
}

/// Counts exact matches and tallies, per color, the pegs of each side outside them.
fn tally(attempt: Pins, actual: Pins) -> (r: (u8, [u8; 8], [u8; 8]))
    requires
        attempt.wf(),
        actual.wf(),
    ensures
        r.0 == black(attempt@, actual@),
        forall|c: int| 0 <= c < COLORS ==> #[trigger] r.1@[c] == leftover(attempt@, actual@, c),
        forall|c: int| 0 <= c < COLORS ==> #[trigger] r.2@[c] == leftover(actual@, attempt@, c),
{
    let mut att_counts: [u8; 8] = [0u8; 8];
    let mut actual_counts: [u8; 8] = [0u8; 8];
    let mut black_count: u8 = 0;
    let mut i: u8 = 0;
    while i < PINS
        invariant
            attempt.wf(),
            actual.wf(),
            i <= PINS,
            black_count == exact_upto(attempt@, actual@, i as int),
            black_count <= i,
            forall|c: int| 0 <= c < COLORS ==> #[trigger] att_counts@[c] == leftover_upto(attempt@, actual@, c, i as int),
            forall|c: int| 0 <= c < COLORS ==> #[trigger] actual_counts@[c] == leftover_upto(actual@, attempt@, c, i as int),
        decreases PINS - i,
    {
        proof {
            assert forall|c: int| 0 <= c < COLORS implies att_counts@[c] <= i && actual_counts@[c] <= i by {
                lemma_leftover_bound(attempt@, actual@, c, i as int);
                lemma_leftover_bound(actual@, attempt@, c, i as int);
            }
        }
        let x = attempt.get(i);
        let y = actual.get(i);
        if x == y {
            black_count = black_count + 1;
        } else {
            att_counts[x as usize] = att_counts[x as usize] + 1;
            actual_counts[y as usize] = actual_counts[y as usize] + 1;
        }
        i = i + 1;
    }
    (black_count, att_counts, actual_counts)
}

/// Sums, over all colors, the smaller of the two sides' unmatched counts.
fn color_matches(attempt: Pins, actual: Pins, att_counts: &[u8; 8], actual_counts: &[u8; 8]) -> (r: u8)
    requires
        forall|c: int| 0 <= c < COLORS ==> #[trigger] att_counts@[c] == leftover(attempt@, actual@, c),
        forall|c: int| 0 <= c < COLORS ==> #[trigger] actual_counts@[c] == leftover(actual@, attempt@, c),
    ensures
        r == white(attempt@, actual@),
{
    let mut white_count: u8 = 0;
    let mut c: usize = 0;
    while c < 8
        invariant
            c <= COLORS,
            white_count == color_upto(attempt@, actual@, c as int),
            forall|k: int| 0 <= k < COLORS ==> #[trigger] att_counts@[k] == leftover(attempt@, actual@, k),
            forall|k: int| 0 <= k < COLORS ==> #[trigger] actual_counts@[k] == leftover(actual@, attempt@, k),
        decreases COLORS - c,
    {
        proof {
            lemma_color_bound(attempt@, actual@, c as int);
            lemma_leftover_bound(attempt@, actual@, c as int, PINS as int);
        }
        let m: u8 = if att_counts[c] < actual_counts[c] {
            att_counts[c]
        } else {
            actual_counts[c]
        };
        white_count = white_count + m;
        c = c + 1;
    }
    white_count
}

/// Scores `attempt` against `actual`.
pub fn compute_score(attempt: Pins, actual: Pins) -> (r: Score)
    requires
        attempt.wf(),
        actual.wf(),
    ensures
        r.0 == black(attempt@, actual@),
        r.1 == white(attempt@, actual@),
        r == score_of(attempt@, actual@),
{
    let (black_count, att_counts, actual_counts) = tally(attempt, actual);
    let white_count = color_matches(attempt, actual, &att_counts, &actual_counts);
    (black_count, white_count)
}

/// Tells whether `attempt` scores exactly `score` against `actual`, without computing the
/// color-only matches when the exact matches already differ.
pub fn is_score(attempt: Pins, actual: Pins, score: Score) -> (r: bool)
    requires
        attempt.wf(),
        actual.wf(),
    ensures
        r == (black(attempt@, actual@) == score.0 && white(attempt@, actual@) == score.1),
        r == (score_of(attempt@, actual@) == score),
{
    let (black_count, att_counts, actual_counts) = tally(attempt, actual);
    if black_count != score.0 {
        return false;
    }
    let white_count = color_matches(attempt, actual, &att_counts, &actual_counts);
    white_count == score.1
}

} // verus!
