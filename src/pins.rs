//! Peg combinations packed into a 16-bit word, three bits per position.
use vstd::prelude::*;

verus! {

/// Number of distinct colors a peg can take.
pub const COLORS: u8 = 8;

/// Number of positions in a combination.
pub const PINS: u8 = 4;

/// Width of the bit field that holds one position.
pub const BITS_PER_PIN: u8 = 3;

/// Mask that selects one position's bit field.
pub const MASK_ONE: u16 = 7;

/// Number of distinct combinations, `COLORS` to the power `PINS`.
pub const TOTAL_CONFIGS: u16 = 4096;

/// True when `s` is a combination: `PINS` positions, each holding a color below `COLORS`.
pub open spec fn is_combo(s: Seq<u8>) -> bool {
    &&& s.len() == PINS
    &&& forall|i: int| 0 <= i < PINS ==> #[trigger] s[i] < COLORS
}

/// Position of a combination read as a number in base `COLORS`, position 0 least significant.
pub open spec fn rank(s: Seq<u8>) -> int {
    s[0] + COLORS * (s[1] + COLORS * (s[2] + COLORS * s[3]))
}

/// The combination whose rank is `r`, for `0 <= r < TOTAL_CONFIGS`.
pub open spec fn unrank(r: int) -> Seq<u8> {
    seq![
        (r % COLORS as int) as u8,
        ((r / COLORS as int) % COLORS as int) as u8,
        ((r / (COLORS * COLORS) as int) % COLORS as int) as u8,
        ((r / (COLORS * COLORS * COLORS) as int) % COLORS as int) as u8,
    ]
}

/// The next combination in enumeration order: one more in base `COLORS`, wrapping to all zeros.
pub open spec fn successor(s: Seq<u8>) -> Seq<u8> {
    unrank((rank(s) + 1) % TOTAL_CONFIGS as int)
}

/// The color held in bit field `i` of the packed word `v`.
pub open spec fn pin_bits(v: u16, i: int) -> u8 {
    ((v >> ((BITS_PER_PIN * i) as u16)) & MASK_ONE) as u8
}

/// A combination of `PINS` pegs, each one of `COLORS` colors.
///
/// Position `i` occupies bits `3 * i .. 3 * i + 3` of the word; bits above the last position are zero.
#[derive(Copy, Clone, Debug, Hash, PartialEq, Eq, Structural)]
pub struct Pins(pub(crate) u16);

impl View for Pins {
    type V = Seq<u8>;

    open(crate) spec fn view(&self) -> Seq<u8> {
        Seq::new(PINS as nat, |i: int| pin_bits(self.0, i))
    }
}

proof fn lemma_packed_is_rank(v: u16)
    requires
        v < TOTAL_CONFIGS,
    ensures
        v == (v & 7) + 8 * (((v >> 3u16) & 7) + 8 * (((v >> 6u16) & 7) + 8 * ((v >> 9u16) & 7))),
{
    assert(v < 4096 ==> v == (v & 7) + 8 * (((v >> 3u16) & 7) + 8 * (((v >> 6u16) & 7) + 8 * ((v >> 9u16) & 7)))) by (bit_vector);
}

proof fn lemma_zero_shift(s: u16)
    ensures
        (0u16 >> s) & 7 == 0,
{
    assert((0u16 >> s) & 7 == 0) by (bit_vector);
}

proof fn lemma_set_bits(v: u16, x: u16, s: u16)
    requires
        v < 4096,
        x < 8,
        s == 0 || s == 3 || s == 6 || s == 9,
    ensures
        ((v & !(7u16 << s)) | (x << s)) < 4096,
        (((v & !(7u16 << s)) | (x << s)) >> s) & 7 == x,
        s != 0 ==> (((v & !(7u16 << s)) | (x << s)) >> 0u16) & 7 == (v >> 0u16) & 7,
        s != 3 ==> (((v & !(7u16 << s)) | (x << s)) >> 3u16) & 7 == (v >> 3u16) & 7,
        s != 6 ==> (((v & !(7u16 << s)) | (x << s)) >> 6u16) & 7 == (v >> 6u16) & 7,
        s != 9 ==> (((v & !(7u16 << s)) | (x << s)) >> 9u16) & 7 == (v >> 9u16) & 7,
{
    assert(((v & !(7u16 << s)) | (x << s)) < 4096 && (((v & !(7u16 << s)) | (x << s)) >> s) & 7 == x
        && (s != 0 ==> (((v & !(7u16 << s)) | (x << s)) >> 0u16) & 7 == (v >> 0u16) & 7)
        && (s != 3 ==> (((v & !(7u16 << s)) | (x << s)) >> 3u16) & 7 == (v >> 3u16) & 7)
        && (s != 6 ==> (((v & !(7u16 << s)) | (x << s)) >> 6u16) & 7 == (v >> 6u16) & 7)
        && (s != 9 ==> (((v & !(7u16 << s)) | (x << s)) >> 9u16) & 7 == (v >> 9u16) & 7)) by (bit_vector)
        requires
            v < 4096,
            x < 8,
            s == 0 || s == 3 || s == 6 || s == 9,
    ;
}

proof fn lemma_digits_of_rank(a: int, b: int, c: int, d: int)
    requires
        0 <= a < 8,
        0 <= b < 8,
        0 <= c < 8,
        0 <= d < 8,
    ensures
        (a + 8 * (b + 8 * (c + 8 * d))) % 8 == a,
        ((a + 8 * (b + 8 * (c + 8 * d))) / 8) % 8 == b,
        ((a + 8 * (b + 8 * (c + 8 * d))) / 64) % 8 == c,
        ((a + 8 * (b + 8 * (c + 8 * d))) / 512) % 8 == d,
        0 <= a + 8 * (b + 8 * (c + 8 * d)) < 4096,
{
    let r = a + 8 * (b + 8 * (c + 8 * d));
    assert(r % 8 == a) by (nonlinear_arith)
        requires r == a + 8 * (b + 8 * (c + 8 * d)), 0 <= a < 8, 0 <= b < 8, 0 <= c < 8, 0 <= d < 8;
    assert(r / 8 == b + 8 * (c + 8 * d)) by (nonlinear_arith)
        requires r == a + 8 * (b + 8 * (c + 8 * d)), 0 <= a < 8, 0 <= b < 8, 0 <= c < 8, 0 <= d < 8;
    assert(r / 64 == c + 8 * d) by (nonlinear_arith)
        requires r == a + 8 * (b + 8 * (c + 8 * d)), 0 <= a < 8, 0 <= b < 8, 0 <= c < 8, 0 <= d < 8;
    assert(r / 512 == d) by (nonlinear_arith)
        requires r == a + 8 * (b + 8 * (c + 8 * d)), 0 <= a < 8, 0 <= b < 8, 0 <= c < 8, 0 <= d < 8;
    assert((b + 8 * (c + 8 * d)) % 8 == b) by (nonlinear_arith)
        requires 0 <= b < 8, 0 <= c < 8, 0 <= d < 8;
    assert((c + 8 * d) % 8 == c) by (nonlinear_arith)
        requires 0 <= c < 8, 0 <= d < 8;
}

/// Reading a combination's rank back gives the combination.
pub proof fn lemma_unrank_rank(s: Seq<u8>)
    requires
        is_combo(s),
    ensures
        0 <= rank(s) < TOTAL_CONFIGS,
        unrank(rank(s)) == s,
{
    assert(s[0] < 8 && s[1] < 8 && s[2] < 8 && s[3] < 8);
    lemma_digits_of_rank(s[0] as int, s[1] as int, s[2] as int, s[3] as int);
    assert(unrank(rank(s)) =~= s);
}

/// Every rank below `TOTAL_CONFIGS` belongs to exactly one combination.
pub proof fn lemma_rank_unrank(r: int)
    requires
        0 <= r < TOTAL_CONFIGS,
    ensures
        is_combo(unrank(r)),
        rank(unrank(r)) == r,
{
    let a = r % 8;
    let b = (r / 8) % 8;
    let c = (r / 64) % 8;
    let d = (r / 512) % 8;
    assert(r == a + 8 * (b + 8 * (c + 8 * d)) && 0 <= a < 8 && 0 <= b < 8 && 0 <= c < 8 && 0 <= d < 8) by (nonlinear_arith)
        requires 0 <= r < 4096, a == r % 8, b == (r / 8) % 8, c == (r / 64) % 8, d == (r / 512) % 8;
    let u = unrank(r);
    assert(u[0] == a && u[1] == b && u[2] == c && u[3] == d);
}

/// The all-zero combination, where enumeration starts.
pub open spec fn zero_combo() -> Seq<u8> {
    seq![0u8, 0u8, 0u8, 0u8]
}

/// The combination reached from `s` after `n` steps of `successor`.
pub open spec fn iterate_successor(s: Seq<u8>, n: nat) -> Seq<u8>
    decreases n,
{
    if n == 0 {
        s
    } else {
        successor(iterate_successor(s, (n - 1) as nat))
    }
}

#[verifier::spinoff_prover]
proof fn lemma_iterate_from_zero(n: nat)
    ensures
        iterate_successor(zero_combo(), n) == unrank(n as int % TOTAL_CONFIGS as int),
    decreases n,
{
    if n == 0 {
        assert(unrank(0) =~= zero_combo());
    } else {
        lemma_iterate_from_zero((n - 1) as nat);
        let k = (n - 1) as int % 4096;
        lemma_rank_unrank(k);
        assert((k + 1) % 4096 == n as int % 4096) by (nonlinear_arith)
            requires k == (n - 1) as int % 4096, n >= 1;
    }
}

/// Starting from the all-zero combination, `TOTAL_CONFIGS` steps of `successor` visit every
/// combination exactly once and come back to the all-zero combination.
pub proof fn lemma_enumeration_visits_all()
    ensures
        iterate_successor(zero_combo(), TOTAL_CONFIGS as nat) == zero_combo(),
        forall|n: nat| n < TOTAL_CONFIGS ==> is_combo(#[trigger] iterate_successor(zero_combo(), n)),
        forall|m: nat, n: nat|
            m < n < TOTAL_CONFIGS ==> #[trigger] iterate_successor(zero_combo(), m)
                != #[trigger] iterate_successor(zero_combo(), n),
        forall|s: Seq<u8>|
            is_combo(s) ==> exists|n: nat|
                n < TOTAL_CONFIGS && #[trigger] iterate_successor(zero_combo(), n) == s,
{
    lemma_iterate_from_zero(TOTAL_CONFIGS as nat);
    assert(unrank(0) =~= zero_combo());
    assert forall|n: nat| n < TOTAL_CONFIGS implies is_combo(#[trigger] iterate_successor(zero_combo(), n)) by {
        lemma_visit_rank(n);
    }
    assert forall|m: nat, n: nat| m < n < TOTAL_CONFIGS implies #[trigger] iterate_successor(zero_combo(), m)
        != #[trigger] iterate_successor(zero_combo(), n) by {
        lemma_visit_rank(m);
        lemma_visit_rank(n);
    }
    assert forall|s: Seq<u8>| is_combo(s) implies exists|n: nat|
        n < TOTAL_CONFIGS && #[trigger] iterate_successor(zero_combo(), n) == s by {
        lemma_unrank_rank(s);
        lemma_visit_rank(rank(s) as nat);
    }
}

#[verifier::spinoff_prover]
proof fn lemma_visit_rank(n: nat)
    requires
        n < TOTAL_CONFIGS,
    ensures
        is_combo(iterate_successor(zero_combo(), n)),
        rank(iterate_successor(zero_combo(), n)) == n,
        iterate_successor(zero_combo(), n) == unrank(n as int),
{
    lemma_iterate_from_zero(n);
    lemma_rank_unrank(n as int);
}

/// Index at which a walk that steps before it looks reaches `g`: the walk starts by stepping
/// away from the all-zero combination, so that combination comes last.
pub open spec fn visit_index(g: Seq<u8>) -> int {
    (rank(g) + TOTAL_CONFIGS - 1) % TOTAL_CONFIGS as int
}

/// Each combination has one visit index, and the walk reaches it at that index.
#[verifier::spinoff_prover]
pub proof fn lemma_visit_index(g: Seq<u8>)
    requires
        is_combo(g),
    ensures
        0 <= visit_index(g) < TOTAL_CONFIGS,
        unrank((visit_index(g) + 1) % TOTAL_CONFIGS as int) == g,
{
    lemma_unrank_rank(g);
    let r = rank(g);
    if r == 0 {
        assert(visit_index(g) == 4095);
    } else {
        assert(visit_index(g) == r - 1);
    }
    assert((visit_index(g) + 1) % 4096 == r);
}

/// The combination reached at step `t` of the walk has visit index `t`.
#[verifier::spinoff_prover]
pub proof fn lemma_visit_step(t: int)
    requires
        0 <= t < TOTAL_CONFIGS,
    ensures
        is_combo(unrank((t + 1) % TOTAL_CONFIGS as int)),
        visit_index(unrank((t + 1) % TOTAL_CONFIGS as int)) == t,
        successor(unrank(t)) == unrank((t + 1) % TOTAL_CONFIGS as int),
{
    if t == 4095 {
        assert((t + 1) % 4096 == 0);
    } else {
        assert((t + 1) % 4096 == t + 1);
    }
    lemma_rank_unrank(t);
    lemma_rank_unrank((t + 1) % 4096);
}

#[verifier::rlimit(40)]
#[verifier::spinoff_prover]
proof fn lemma_carry_stops(s: Seq<u8>, t: Seq<u8>, i: int)
    requires
        is_combo(s),
        t.len() == PINS,
        0 <= i < PINS,
        forall|j: int| 0 <= j < i ==> s[j] == COLORS - 1 && t[j] == 0,
        s[i] < COLORS - 1,
        t[i] == s[i] + 1,
        forall|j: int| i < j < PINS ==> t[j] == s[j],
    ensures
        t == successor(s),
{
    assert(s[0] < 8 && s[1] < 8 && s[2] < 8 && s[3] < 8);
    assert(is_combo(t));
    assert(rank(t) == rank(s) + 1) by {
        if i == 1 {
            assert(s[0] == 7);
        } else if i == 2 {
            assert(s[0] == 7 && s[1] == 7);
        } else if i == 3 {
            assert(s[0] == 7 && s[1] == 7 && s[2] == 7);
        }
    }
    lemma_unrank_rank(t);
}

proof fn lemma_carry_wraps(s: Seq<u8>, t: Seq<u8>)
    requires
        is_combo(s),
        t.len() == PINS,
        forall|j: int| 0 <= j < PINS ==> s[j] == COLORS - 1 && t[j] == 0,
    ensures
        t == successor(s),
{
    assert(s[0] == 7 && s[1] == 7 && s[2] == 7 && s[3] == 7);
    assert(t[0] == 0 && t[1] == 0 && t[2] == 0 && t[3] == 0);
    assert(successor(s) =~= t);
}

impl Pins {
    /// Bits above the last position are zero.
    pub open(crate) spec fn wf(self) -> bool {
        self.0 < TOTAL_CONFIGS
    }

    /// A well-formed value's view is a combination whose rank is the packed word.
    pub(crate) proof fn lemma_wf(self)
        requires
            self.wf(),
        ensures
            is_combo(self@),
            rank(self@) == self.0,
    {
        let v = self.0;
        lemma_packed_is_rank(v);
        assert((v & 7) < 8 && ((v >> 3u16) & 7) < 8 && ((v >> 6u16) & 7) < 8 && ((v >> 9u16) & 7) < 8) by (bit_vector);
        assert(v >> 0u16 == v) by (bit_vector);
        assert(self@[0] == v & 7);
        assert(self@[1] == (v >> 3u16) & 7);
        assert(self@[2] == (v >> 6u16) & 7);
        assert(self@[3] == (v >> 9u16) & 7);
    }

    /// Two well-formed values are equal exactly when their views are.
    pub proof fn lemma_view_injective(self, other: Pins)
        requires
            self.wf(),
            other.wf(),
        ensures
            (self == other) <==> (self@ == other@),
    {
        self.lemma_wf();
        other.lemma_wf();
    }

    /// The combination holding `a`, `b`, `c`, `d` at positions 0 to 3; each must be a color
    /// below `COLORS`.
    pub fn new(a: u8, b: u8, c: u8, d: u8) -> (r: Pins)
        requires
            a < COLORS,
            b < COLORS,
            c < COLORS,
            d < COLORS,
        ensures
            r.wf(),
            r@ == seq![a, b, c, d],
    {
        let mut p = Pins(0);
        assert forall|i: int| 0 <= i < PINS implies p@[i] == 0 by {
            lemma_zero_shift((BITS_PER_PIN * i) as u16);
        }
        p.set(0, a);
        p.set(1, b);
        p.set(2, c);
        p.set(3, d);
        assert(p@ =~= seq![a, b, c, d]);
        p
    }

    /// The color at position `index`.
    pub fn get(&self, index: u8) -> (r: u8)
        requires
            self.wf(),
            index < PINS,
        ensures
            r == self@[index as int],
            r < COLORS,
    {
        proof {
            self.lemma_wf();
        }
        let shift_amount: u16 = (index * BITS_PER_PIN) as u16;
        ((self.0 >> shift_amount) & MASK_ONE) as u8
    }

    /// Overwrites position `index` with color `new_mem`. The color must be below `COLORS`, the
    /// same bound as on construction, so that it fits its bit field.
    pub fn set(&mut self, index: u8, new_mem: u8)
        requires
            old(self).wf(),
            index < PINS,
            new_mem < COLORS,
        ensures
            final(self).wf(),
            final(self)@ == old(self)@.update(index as int, new_mem),
    {
        let shift_amount: u16 = (index * BITS_PER_PIN) as u16;
        let mask: u16 = MASK_ONE << shift_amount;
        let deleted: u16 = self.0 & !mask;
        proof {
            lemma_set_bits(self.0, new_mem as u16, shift_amount);
        }
        self.0 = deleted | ((new_mem as u16) << shift_amount);
        assert(self@ =~= old(self)@.update(index as int, new_mem));
    }

    /// The colors at positions 0 to 3, for display as a tuple.
    pub fn values(&self) -> (r: (u8, u8, u8, u8))
        requires
            self.wf(),
        ensures
            r == (self@[0], self@[1], self@[2], self@[3]),
    {
        (self.get(0), self.get(1), self.get(2), self.get(3))
    }

    /// Steps to the next combination in enumeration order: position 0 counts up first and
    /// carries into the next position, and the last combination wraps to all zeros.
    pub fn increment(&mut self)
        requires
            old(self).wf(),
        ensures
            final(self).wf(),
            final(self)@ == successor(old(self)@),
    {
        let ghost start = self@;
        proof {
            self.lemma_wf();
        }
        let mut i: u8 = 0;
        while i < PINS
            invariant
                self.wf(),
                i <= PINS,
                is_combo(start),
                self@.len() == PINS,
                start == old(self)@,
                forall|j: int| 0 <= j < i ==> start[j] == COLORS - 1 && self@[j] == 0,
                forall|j: int| i <= j < PINS ==> self@[j] == start[j],
            decreases PINS - i,
        {
            let v = self.get(i);
            let ghost prev = self@;
            if v < COLORS - 1 {
                self.set(i, v + 1);
                assert(forall|j: int| 0 <= j < PINS && j != i ==> self@[j] == prev[j]);
                proof {
                    lemma_carry_stops(start, self@, i as int);
                }
                return;
            } else {
                self.set(i, 0);
                assert(forall|j: int| 0 <= j < PINS && j != i ==> self@[j] == prev[j]);
            }
            i = i + 1;
        }
        proof {
            lemma_carry_wraps(start, self@);
        }
    }
}

} // verus!
