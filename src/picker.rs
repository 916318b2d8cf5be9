//! The minimax guess picker: it keeps the combinations still consistent with every score seen,
//! and guesses so as to rule out as many of them as possible in the worst case.
use crate::pins::{
    is_combo, lemma_visit_index, lemma_visit_step, unrank, visit_index, Pins, PINS, TOTAL_CONFIGS,
};
use crate::score::{
    compute_score, is_valid_score, lemma_score_symmetric, lemma_score_valid, score_of, win_score,
    Score,
};
use vstd::prelude::*;

verus! {

/// Side of the grid of (black, white) pairs with both counts at most `PINS`.
pub const SCORE_SIDE: usize = 5;

/// Number of cells in that grid.
pub const SCORE_SLOTS: usize = 25;

/// The score in cell `k` of the grid of (black, white) pairs: row `black`, column `white`.
pub open spec fn score_at(k: int) -> Score {
    ((k / SCORE_SIDE as int) as u8, (k % SCORE_SIDE as int) as u8)
}

/// True when some member of `cands` has view `g`.
pub open spec fn in_candidates(cands: Seq<Pins>, g: Seq<u8>) -> bool {
    exists|i: int| 0 <= i < cands.len() && #[trigger] cands[i]@ == g
}

/// Members among the first `n` of `cands` against which guess `g` scores `s`.
pub open spec fn matching_upto(cands: Seq<Pins>, g: Seq<u8>, s: Score, n: int) -> nat
    decreases n,
{
    if n <= 0 {
        0
    } else {
        matching_upto(cands, g, s, n - 1) + if score_of(g, cands[n - 1]@) == s {
            1nat
        } else {
            0nat
        }
    }
}

/// Members of `cands` that guessing `g` rules out if the score comes back as `s`.
pub open spec fn eliminated(cands: Seq<Pins>, g: Seq<u8>, s: Score) -> int {
    cands.len() - matching_upto(cands, g, s, cands.len() as int)
}

/// The fewest members that guessing `g` rules out, over the valid scores in the first `k`
/// cells of the grid (`TOTAL_CONFIGS` when there is none).
pub open spec fn worst_upto(cands: Seq<Pins>, g: Seq<u8>, k: int) -> int
    decreases k,
{
    if k <= 0 {
        TOTAL_CONFIGS as int
    } else {
        let prev = worst_upto(cands, g, k - 1);
        let s = score_at(k - 1);
        if is_valid_score(s) && eliminated(cands, g, s) < prev {
            eliminated(cands, g, s)
        } else {
            prev
        }
    }
}

/// How many members guessing `g` is sure to rule out, whatever valid score comes back.
pub open spec fn worst_case(cands: Seq<Pins>, g: Seq<u8>) -> int {
    worst_upto(cands, g, SCORE_SLOTS as int)
}

/// `g` is the guess the picker makes on candidates `cands`: no combination has a better worst
/// case; among those that tie, the first in enumeration order that is itself a candidate, or
/// the first in enumeration order when none is.
pub open spec fn is_minimax_choice(cands: Seq<Pins>, g: Seq<u8>) -> bool {
    &&& is_combo(g)
    &&& forall|h: Seq<u8>| is_combo(h) ==> #[trigger] worst_case(cands, h) <= worst_case(cands, g)
    &&& if exists|h: Seq<u8>|
        is_combo(h) && #[trigger] worst_case(cands, h) == worst_case(cands, g) && in_candidates(cands, h) {
        &&& in_candidates(cands, g)
        &&& forall|h: Seq<u8>|
            is_combo(h) && #[trigger] worst_case(cands, h) == worst_case(cands, g) && in_candidates(cands, h)
                ==> visit_index(g) <= visit_index(h)
    } else {
        forall|h: Seq<u8>|
            is_combo(h) && #[trigger] worst_case(cands, h) == worst_case(cands, g) ==> visit_index(g)
                <= visit_index(h)
    }
}

/// The first guess, made before any score is known: two pegs each of two colors.
pub open spec fn opening_guess() -> Seq<u8> {
    seq![0u8, 0u8, 1u8, 1u8]
}

/// Every member is well formed and no combination is held twice.
pub open spec fn valid_candidates(cands: Seq<Pins>) -> bool {
    &&& forall|i: int| 0 <= i < cands.len() ==> (#[trigger] cands[i]).wf()
    &&& forall|i: int, j: int| 0 <= i < j < cands.len() ==> #[trigger] cands[i]@ != #[trigger] cands[j]@
}

proof fn lemma_score_index(k: int, b: int, w: int)
    requires
        0 <= k < SCORE_SLOTS,
        0 <= b < SCORE_SIDE,
        0 <= w < SCORE_SIDE,
    ensures
        (score_at(k) == (b as u8, w as u8)) <==> k == b * SCORE_SIDE + w,
{
    assert(k == (k / 5) * 5 + k % 5 && 0 <= k / 5 < 5 && 0 <= k % 5 < 5) by (nonlinear_arith)
        requires 0 <= k < 25;
    assert((b * 5 + w) / 5 == b && (b * 5 + w) % 5 == w) by (nonlinear_arith)
        requires 0 <= b < 5, 0 <= w < 5;
}

proof fn lemma_matching_bound(cands: Seq<Pins>, g: Seq<u8>, s: Score, n: int)
    requires
        0 <= n,
    ensures
        matching_upto(cands, g, s, n) <= n,
    decreases n,
{
    if n > 0 {
        lemma_matching_bound(cands, g, s, n - 1);
    }
}

proof fn lemma_worst_bound(cands: Seq<Pins>, g: Seq<u8>, k: int)
    requires
        0 <= k,
    ensures
        0 <= worst_upto(cands, g, k) <= TOTAL_CONFIGS,
    decreases k,
{
    if k > 0 {
        lemma_worst_bound(cands, g, k - 1);
        lemma_matching_bound(cands, g, score_at(k - 1), cands.len() as int);
    }
}

/// Tells whether some member of `cands` equals `g`.
fn contains_pins(cands: &Vec<Pins>, g: Pins) -> (r: bool)
    requires
        valid_candidates(cands@),
        g.wf(),
    ensures
        r == in_candidates(cands@, g@),
{
    let mut i: usize = 0;
    while i < cands.len()
        invariant
            valid_candidates(cands@),
            g.wf(),
            i <= cands.len(),
            forall|j: int| 0 <= j < i ==> cands@[j]@ != g@,
        decreases cands.len() - i,
    {
        proof {
            cands@[i as int].lemma_view_injective(g);
        }
        if cands[i] == g {
            return true;
        }
        i = i + 1;
    }
    false
}

/// The worst case of guess `g` on `cands`: one pass tallies how many members give each score,
/// then the smallest number ruled out over the valid scores is kept.
fn worst_case_of(cands: &Vec<Pins>, g: Pins) -> (r: usize)
    requires
        valid_candidates(cands@),
        g.wf(),
    ensures
        r == worst_case(cands@, g@),
{
    let mut hist: [usize; SCORE_SLOTS] = [0usize; SCORE_SLOTS];
    let mut i: usize = 0;
    while i < cands.len()
        invariant
            valid_candidates(cands@),
            g.wf(),
            i <= cands.len(),
            forall|k: int| 0 <= k < SCORE_SLOTS ==> #[trigger] hist@[k] == matching_upto(cands@, g@, score_at(k), i as int),
            forall|k: int| 0 <= k < SCORE_SLOTS ==> #[trigger] hist@[k] <= i,
        decreases cands.len() - i,
    {
        let m = cands[i];
        let (b, w) = compute_score(g, m);
        proof {
            g.lemma_wf();
            m.lemma_wf();
            lemma_score_valid(g@, m@);
        }
        let idx: usize = (b as usize) * SCORE_SIDE + (w as usize);
        proof {
            assert forall|k: int| 0 <= k < SCORE_SLOTS implies (score_at(k) == (b, w)) <==> k == idx by {
                lemma_score_index(k, b as int, w as int);
            }
        }
        hist[idx] = hist[idx] + 1;
        i = i + 1;
    }
    let mut worst: usize = TOTAL_CONFIGS as usize;
    let mut k: usize = 0;
    while k < SCORE_SLOTS
        invariant
            k <= SCORE_SLOTS,
            worst == worst_upto(cands@, g@, k as int),
            forall|j: int| 0 <= j < SCORE_SLOTS ==> #[trigger] hist@[j] == matching_upto(cands@, g@, score_at(j), cands.len() as int),
            forall|j: int| 0 <= j < SCORE_SLOTS ==> #[trigger] hist@[j] <= cands.len(),
        decreases SCORE_SLOTS - k,
    {
        let s: Score = ((k / SCORE_SIDE) as u8, (k % SCORE_SIDE) as u8);
        if s.0 + s.1 <= PINS && !(s.0 == PINS - 1 && s.1 == 1) {
            let e: usize = cands.len() - hist[k];
            if e < worst {
                worst = e;
            }
        }
        k = k + 1;
    }
    worst
}

/// A strategy that proposes guesses and learns from their scores.
pub trait Picker: Sized {
    /// The internal state is consistent.
    spec fn wf(&self) -> bool;

    /// A guess can be asked for: the state is consistent and not known to be contradictory.
    spec fn ready(&self) -> bool;

    /// `guess` is what this picker proposes in its current state.
    spec fn picks(&self, guess: Pins) -> bool;

    /// `next` is this picker after learning that `guess` scored `score`.
    spec fn learns(&self, guess: Pins, score: Score, next: Self) -> bool;

    fn next_guess(&self) -> (r: Pins)
        requires
            self.ready(),
        ensures
            r.wf(),
            self.picks(r),
    ;

    fn score_for_guess(&mut self, guess: Pins, score: Score)
        requires
            old(self).wf(),
            guess.wf(),
            score != win_score(),
        ensures
            final(self).wf(),
            old(self).learns(guess, score, *final(self)),
    ;
}

/// The minimax picker. Before the first score it holds no candidates and always opens with
/// the same guess; afterwards it holds every combination consistent with the scores seen.
pub struct MinMaxPicker {
    possibilities: Vec<Pins>,
    initialized: bool,
}

impl MinMaxPicker {
    /// A score has been learned, so the candidates are filled in.
    pub closed spec fn started(&self) -> bool {
        self.initialized
    }

    /// The combinations still consistent with every score learned.
    pub closed spec fn candidates(&self) -> Seq<Pins> {
        self.possibilities@
    }

    /// Candidates are well formed and distinct, and there are none before the first score.
    pub open spec fn inv(&self) -> bool {
        &&& valid_candidates(self.candidates())
        &&& !self.started() ==> self.candidates().len() == 0
    }

    pub fn new() -> (r: Self)
        ensures
            r.inv(),
            !r.started(),
            r.candidates().len() == 0,
    {
        MinMaxPicker { possibilities: Vec::new(), initialized: false }
    }

    /// Number of combinations still consistent with the scores seen.
    pub fn candidate_count(&self) -> (r: usize)
        ensures
            r == self.candidates().len(),
    {
        self.possibilities.len()
    }

    /// True when no combination is consistent with the scores seen: they contradict each other.
    pub fn is_exhausted(&self) -> (r: bool)
        ensures
            r == (self.started() && self.candidates().len() == 0),
    {
        self.initialized && self.possibilities.len() == 0
    }

    /// Tells whether `guess` is still a candidate, and so could win outright.
    pub fn is_candidate(&self, guess: Pins) -> (r: bool)
        requires
            self.inv(),
            guess.wf(),
        ensures
            r == in_candidates(self.candidates(), guess@),
    {
        contains_pins(&self.possibilities, guess)
    }

    /// Fills the candidates, on the first score, with every combination other than `guess`
    /// against which `guess` would score `score`.
    #[verifier::rlimit(80)]
    #[verifier::spinoff_prover]
    fn fill_candidates(&mut self, guess: Pins, score: Score)
        requires
            old(self).inv(),
            !old(self).started(),
            guess.wf(),
        ensures
            final(self).inv(),
            final(self).started(),
            forall|g: Seq<u8>|
                #[trigger] in_candidates(final(self).candidates(), g) <==> (is_combo(g) && g != guess@
                    && score_of(g, guess@) == score),
    {
        self.initialized = true;
        let mut pins = Pins::new(0, 0, 0, 0);
        assert(pins@ =~= unrank(0));
        let mut t: u16 = 0;
        while t < TOTAL_CONFIGS
            invariant
                guess.wf(),
                self.initialized,
                t <= TOTAL_CONFIGS,
                pins.wf(),
                pins@ == unrank(t as int % TOTAL_CONFIGS as int),
                forall|i: int|
                    0 <= i < self.possibilities@.len() ==> (#[trigger] self.possibilities@[i]).wf()
                        && self.possibilities@[i]@ != guess@ && score_of(self.possibilities@[i]@, guess@) == score
                        && visit_index(self.possibilities@[i]@) < t,
                forall|i: int, j: int|
                    0 <= i < j < self.possibilities@.len() ==> visit_index(#[trigger] self.possibilities@[i]@)
                        < visit_index(#[trigger] self.possibilities@[j]@),
                forall|h: Seq<u8>|
                    is_combo(h) && visit_index(h) < t && h != guess@ && score_of(h, guess@) == score
                        ==> #[trigger] in_candidates(self.possibilities@, h),
            decreases TOTAL_CONFIGS - t,
        {
            proof {
                lemma_visit_step(t as int);
            }
            pins.increment();
            let ghost h0 = pins@;
            let ghost before = self.possibilities@;
            proof {
                pins.lemma_view_injective(guess);
            }
            if !(pins == guess) {
                let sc = compute_score(pins, guess);
                if sc.0 == score.0 && sc.1 == score.1 {
                    self.possibilities.push(pins);
                    proof {
                        let n = before.len() as int;
                        assert(self.possibilities@[n] == pins);
                        assert forall|h: Seq<u8>|
                            is_combo(h) && visit_index(h) < t && h != guess@ && score_of(h, guess@) == score
                            implies #[trigger] in_candidates(self.possibilities@, h) by {
                            assert(in_candidates(before, h));
                            let i = choose|i: int| 0 <= i < before.len() && #[trigger] before[i]@ == h;
                            assert(self.possibilities@[i] == before[i]);
                        }
                    }
                }
            }
            proof {
                assert forall|h: Seq<u8>|
                    is_combo(h) && visit_index(h) < t + 1 && h != guess@ && score_of(h, guess@) == score
                    implies #[trigger] in_candidates(self.possibilities@, h) by {
                    lemma_visit_index(h);
                    if visit_index(h) == t {
                        assert(h == h0);
                        assert(self.possibilities@[self.possibilities@.len() - 1]@ == h);
                    }
                }
            }
            t = t + 1;
        }
        proof {
            assert forall|g: Seq<u8>|
                #[trigger] in_candidates(self.possibilities@, g) <==> (is_combo(g) && g != guess@ && score_of(g, guess@)
                    == score) by {
                if is_combo(g) {
                    lemma_visit_index(g);
                }
                if in_candidates(self.possibilities@, g) {
                    let i = choose|i: int| 0 <= i < self.possibilities@.len() && #[trigger] self.possibilities@[i]@ == g;
                    self.possibilities@[i].lemma_wf();
                }
            }
        }
    }

    /// Keeps only the candidates against which `guess` scores `score`.
    fn narrow_candidates(&mut self, guess: Pins, score: Score)
        requires
            old(self).inv(),
            old(self).started(),
            guess.wf(),
        ensures
            final(self).inv(),
            final(self).started(),
            forall|g: Seq<u8>|
                #[trigger] in_candidates(final(self).candidates(), g) <==> (in_candidates(old(self).candidates(), g)
                    && score_of(guess@, g) == score),
            final(self).candidates().len() <= old(self).candidates().len(),
    {
        let ghost cands = self.possibilities@;
        let mut kept: Vec<Pins> = Vec::new();
        let mut i: usize = 0;
        while i < self.possibilities.len()
            invariant
                self.inv(),
                self.started(),
                cands == self.possibilities@,
                guess.wf(),
                i <= cands.len(),
                kept@.len() <= i,
                valid_candidates(kept@),
                forall|k: int|
                    0 <= k < kept@.len() ==> exists|j: int|
                        0 <= j < i && #[trigger] cands[j]@ == (#[trigger] kept@[k])@ && score_of(guess@, cands[j]@)
                            == score,
                forall|j: int|
                    0 <= j < i && score_of(guess@, cands[j]@) == score ==> in_candidates(kept@, #[trigger] cands[j]@),
            decreases cands.len() - i,
        {
            let m = self.possibilities[i];
            let sc = compute_score(guess, m);
            let ghost before = kept@;
            if sc.0 == score.0 && sc.1 == score.1 {
                kept.push(m);
                proof {
                    let n = before.len() as int;
                    assert(kept@[n] == m);
                    assert forall|k: int| 0 <= k < n implies kept@[k]@ != m@ by {
                        let j = choose|j: int| 0 <= j < i && #[trigger] cands[j]@ == (#[trigger] before[k])@
                            && score_of(guess@, cands[j]@) == score;
                        assert(kept@[k] == before[k]);
                    }
                    assert forall|k: int| 0 <= k < kept@.len() implies exists|j: int|
                        0 <= j < i + 1 && #[trigger] cands[j]@ == (#[trigger] kept@[k])@ && score_of(guess@, cands[j]@)
                            == score by {
                        if k < n {
                            assert(kept@[k] == before[k]);
                        } else {
                            assert(cands[i as int]@ == kept@[k]@);
                        }
                    }
                    assert forall|j: int| 0 <= j < i + 1 && score_of(guess@, cands[j]@) == score
                        implies in_candidates(kept@, #[trigger] cands[j]@) by {
                        if j < i {
                            let k = choose|k: int| 0 <= k < before.len() && #[trigger] before[k]@ == cands[j]@;
                            assert(kept@[k] == before[k]);
                        } else {
                            assert(kept@[n]@ == cands[j]@);
                        }
                    }
                }
            }
            i = i + 1;
        }
        self.possibilities = kept;
        proof {
            assert forall|g: Seq<u8>|
                #[trigger] in_candidates(self.possibilities@, g) <==> (in_candidates(cands, g) && score_of(guess@, g)
                    == score) by {
                if in_candidates(self.possibilities@, g) {
                    let k = choose|k: int| 0 <= k < self.possibilities@.len() && #[trigger] self.possibilities@[k]@ == g;
                    let j = choose|j: int| 0 <= j < cands.len() && #[trigger] cands[j]@ == (#[trigger] self.possibilities@[k])@
                        && score_of(guess@, cands[j]@) == score;
                }
                if in_candidates(cands, g) && score_of(guess@, g) == score {
                    let j = choose|j: int| 0 <= j < cands.len() && #[trigger] cands[j]@ == g;
                }
            }
        }
    }

    /// The best guess by worst case over every combination, in enumeration order.
    #[verifier::rlimit(80)]
    #[verifier::spinoff_prover]
    fn minimax_guess(&self) -> (r: Pins)
        requires
            self.inv(),
        ensures
            r.wf(),
            is_minimax_choice(self.candidates(), r@),
    {
        let ghost cands = self.possibilities@;
        let mut current = Pins::new(0, 0, 0, 0);
        assert(current@ =~= unrank(0));
        let mut best: usize = 0;
        let mut first: Option<Pins> = None;
        let mut cand: Option<Pins> = None;
        let mut t: u16 = 0;
        while t < TOTAL_CONFIGS
            invariant
                self.inv(),
                cands == self.possibilities@,
                t <= TOTAL_CONFIGS,
                current.wf(),
                current@ == unrank(t as int % TOTAL_CONFIGS as int),
                t == 0 <==> first is None,
                first matches Some(f) ==> f.wf() && visit_index(f@) < t && worst_case(cands, f@) == best,
                forall|h: Seq<u8>|
                    is_combo(h) && visit_index(h) < t ==> #[trigger] worst_case(cands, h) <= best,
                forall|h: Seq<u8>|
                    is_combo(h) && visit_index(h) < t && #[trigger] worst_case(cands, h) == best
                        ==> (first matches Some(f) && visit_index(f@) <= visit_index(h)),
                cand matches Some(c) ==> c.wf() && visit_index(c@) < t && worst_case(cands, c@) == best
                    && in_candidates(cands, c@),
                forall|h: Seq<u8>|
                    is_combo(h) && visit_index(h) < t && #[trigger] worst_case(cands, h) == best
                        && in_candidates(cands, h)
                        ==> (cand matches Some(c) && visit_index(c@) <= visit_index(h)),
            decreases TOTAL_CONFIGS - t,
        {
            proof {
                lemma_visit_step(t as int);
            }
            current.increment();
            let w = worst_case_of(&self.possibilities, current);
            let live = contains_pins(&self.possibilities, current);
            let ghost h0 = current@;
            assert(visit_index(h0) == t);
            let ghost old_best = best;
            if first.is_none() || w > best {
                best = w;
                first = Some(current);
                cand = if live {
                    Some(current)
                } else {
                    None
                };
            } else if w == best && cand.is_none() && live {
                cand = Some(current);
            }
            proof {
                assert forall|h: Seq<u8>| is_combo(h) && visit_index(h) == t implies h == h0 by {
                    lemma_visit_index(h);
                }
            }
            t = t + 1;
        }
        let r = match cand {
            Some(c) => c,
            None => first.unwrap(),
        };
        proof {
            r.lemma_wf();
            assert forall|h: Seq<u8>| is_combo(h) implies #[trigger] worst_case(cands, h) <= worst_case(cands, r@) by {
                lemma_visit_index(h);
            }
            if cand is None {
                assert forall|h: Seq<u8>|
                    is_combo(h) && #[trigger] worst_case(cands, h) == worst_case(cands, r@) implies visit_index(r@)
                        <= visit_index(h) by {
                    lemma_visit_index(h);
                }
                assert forall|h: Seq<u8>|
                    !(is_combo(h) && #[trigger] worst_case(cands, h) == worst_case(cands, r@) && in_candidates(cands, h)) by {
                    if is_combo(h) {
                        lemma_visit_index(h);
                    }
                }
            } else {
                assert forall|h: Seq<u8>|
                    is_combo(h) && #[trigger] worst_case(cands, h) == worst_case(cands, r@) && in_candidates(cands, h)
                        implies visit_index(r@) <= visit_index(h) by {
                    lemma_visit_index(h);
                }
            }
        }
        r
    }
}

impl Picker for MinMaxPicker {
    open spec fn wf(&self) -> bool {
        self.inv()
    }

    open spec fn ready(&self) -> bool {
        &&& self.inv()
        &&& self.started() ==> self.candidates().len() > 0
    }

    open spec fn picks(&self, guess: Pins) -> bool {
        if !self.started() {
            guess@ == opening_guess()
        } else if self.candidates().len() == 1 {
            guess == self.candidates()[0]
        } else {
            is_minimax_choice(self.candidates(), guess@)
        }
    }

    open spec fn learns(&self, guess: Pins, score: Score, next: Self) -> bool {
        &&& next.started()
        &&& !self.started() ==> forall|g: Seq<u8>|
            #[trigger] in_candidates(next.candidates(), g) <==> (is_combo(g) && g != guess@ && score_of(g, guess@)
                == score)
        &&& self.started() ==> forall|g: Seq<u8>|
            #[trigger] in_candidates(next.candidates(), g) <==> (in_candidates(self.candidates(), g)
                && score_of(guess@, g) == score)
        &&& self.started() ==> next.candidates().len() <= self.candidates().len()
    }

    /// The opening guess before any score; the one candidate once a single one is left;
    /// otherwise the minimax guess.
    fn next_guess(&self) -> (r: Pins) {
        if !self.initialized {
            return Pins::new(0, 0, 1, 1);
        }
        if self.possibilities.len() == 1 {
            return self.possibilities[0];
        }
        self.minimax_guess()
    }

    /// Keeps the candidates consistent with `guess` scoring `score`: on the first score every
    /// combination but the guess itself is tried.
    fn score_for_guess(&mut self, guess: Pins, score: Score) {
        if !self.initialized {
            self.fill_candidates(guess, score);
        } else {
            self.narrow_candidates(guess, score);
        }
    }
}

/// Learning a score never adds candidates, and never drops the secret: when the score
/// learned is what the guess earns against the secret (and, on the first score, the secret is
/// not the guess itself), the secret stays a candidate, so the candidates are never exhausted.
pub proof fn lemma_secret_survives(
    before: MinMaxPicker,
    after: MinMaxPicker,
    guess: Pins,
    score: Score,
    secret: Seq<u8>,
)
    requires
        before.learns(guess, score, after),
        is_combo(secret),
        score == score_of(guess@, secret),
        before.started() ==> in_candidates(before.candidates(), secret),
        !before.started() ==> secret != guess@,
    ensures
        in_candidates(after.candidates(), secret),
        after.candidates().len() > 0,
        before.started() ==> after.candidates().len() <= before.candidates().len(),
{
    lemma_score_symmetric(guess@, secret);
    assert(in_candidates(after.candidates(), secret));
}

} // verus!
