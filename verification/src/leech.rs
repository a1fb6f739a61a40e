//! Integer-coordinate construction of the Leech lattice.
//!
//! We work in the integer embedding `sqrt(8)·Λ24 ⊂ Z^24`: `x` belongs to the
//! (scaled) lattice iff (i) all coordinates have the same parity `p`,
//! (ii) the positions with `x_i ≡ 2 + p (mod 4)` form a Golay codeword and
//! (iii) `Σ x_i ≡ 4p (mod 8)`. The `m`-th shell `{v : ‖v‖² = 2m}` is
//! `‖x‖² = 16m` in the embedding.
use vstd::prelude::*;

use crate::golay::{
    bit, is_codeword, lemma_codeword_weights, lemma_eq_by_bits, lemma_or_bit, lemma_or_bit_zero,
    lemma_pc_24, pc, pc_upto, Golay,
};
use crate::rng::{splitmix_advance, splitmix_output, SplitMix64};

verus! {

/// Ambient dimension of the Leech lattice.
pub const DIM: usize = 24;

/// A point of the integer embedding (or a candidate for membership).
pub type Point = [i32; DIM];

/// Theta-series coefficients: `(m, |Shell(m)|)` for the first shells.
pub const THETA: [(u32, u64); 4] = [(2, 196_560), (3, 16_773_120), (4, 398_034_000), (5, 4_629_381_120)];

/// Cumulative point count `N(13)` of the shells `2 ..= 13`.
pub const N_SHELL_13_CUMULATIVE: u64 = 280_974_212_784_720;

/// Largest `spread` that [`Leech::random_point`] accepts (coordinates stay in `i32`).
pub const MAX_SPREAD: i32 = 536_870_910;

/// Parity of the first coordinate.
pub open spec fn par(x: Point) -> int {
    (x[0] as int) % 2
}

/// All coordinates share the parity of the first.
pub open spec fn uniform_parity(x: Point) -> bool {
    forall|i: int| 0 <= i < 24 ==> (x[i] as int) % 2 == par(x)
}

/// Coordinate `i` carries a bit of the Golay word (`x_i ≡ 2 + p mod 4`).
pub open spec fn on_word(x: Point, i: int) -> bool {
    (x[i] as int) % 4 == 2 + par(x)
}

/// The word whose bit `i < k` is set iff coordinate `i` is on the word.
pub open spec fn word_upto(x: Point, k: nat) -> u32
    decreases k,
{
    if k == 0 {
        0
    } else {
        word_upto(x, (k - 1) as nat) | (if on_word(x, k - 1) {
            1u32 << ((k - 1) as u32)
        } else {
            0u32
        })
    }
}

/// The mod-4 pattern of `x` as a 24-bit word.
pub open spec fn golay_word(x: Point) -> u32 {
    word_upto(x, 24)
}

pub open spec fn coord_sum_upto(x: Point, k: nat) -> int
    decreases k,
{
    if k == 0 {
        0
    } else {
        coord_sum_upto(x, (k - 1) as nat) + x[k - 1]
    }
}

/// `Σ x_i`.
pub open spec fn coord_sum(x: Point) -> int {
    coord_sum_upto(x, 24)
}

pub open spec fn norm_upto(x: Point, k: nat) -> int
    decreases k,
{
    if k == 0 {
        0
    } else {
        norm_upto(x, (k - 1) as nat) + x[k - 1] * x[k - 1]
    }
}

/// `‖x‖² = Σ x_i²`.
pub open spec fn norm(x: Point) -> int {
    norm_upto(x, 24)
}

/// `x` is a point of the integer embedding of the Leech lattice.
pub open spec fn is_member(x: Point) -> bool {
    &&& uniform_parity(x)
    &&& is_codeword(golay_word(x))
    &&& coord_sum(x) % 8 == 4 * par(x)
}

/// The bits of the mod-4 word are the on-word coordinates.
pub(crate) proof fn lemma_word_bits(x: Point)
    ensures
        golay_word(x) < 0x100_0000,
        forall|i: u32| i < 24 ==> #[trigger] bit(golay_word(x), i) == (if on_word(x, i as int) {
            1u32
        } else {
            0u32
        }),
{
    lemma_word_bits_upto(x, 24);
    assert((1u32 << 24u32) == 0x100_0000u32) by (bit_vector);
}

proof fn lemma_word_bits_upto(x: Point, k: nat)
    requires
        k <= 24,
    ensures
        word_upto(x, k) < (1u32 << (k as u32)),
        forall|i: u32| i < k ==> #[trigger] bit(word_upto(x, k), i) == (if on_word(x, i as int) {
            1u32
        } else {
            0u32
        }),
    decreases k,
{
    if k == 0 {
        assert(0u32 < (1u32 << 0u32)) by (bit_vector);
    } else {
        let k1 = (k - 1) as nat;
        lemma_word_bits_upto(x, k1);
        let y = word_upto(x, k1);
        let set = on_word(x, k1 as int);
        if k1 == 0 {
            lemma_or_bit_zero(0, set);
            assert(y == 0);
            assert((0u32 | (if set { 1u32 << 0u32 } else { 0u32 })) == (if set { 1u32 << 0u32 } else { 0u32 })) by (bit_vector);
        } else {
            lemma_or_bit(y, k1 as u32, set, 0);
        }
        assert forall|i: u32| i < k implies #[trigger] bit(word_upto(x, k), i) == (if on_word(
            x,
            i as int,
        ) {
            1u32
        } else {
            0u32
        }) by {
            if i < k1 {
                lemma_or_bit(y, k1 as u32, set, i);
            } else if k1 > 0 {
                lemma_or_bit(y, k1 as u32, set, 0);
            }
        }
    }
}

/// Coordinate sums see a one-coordinate change.
proof fn lemma_coord_sum_update(x: Point, y: Point, i: int, k: nat)
    requires
        0 <= i < 24,
        k <= 24,
        forall|j: int| 0 <= j < 24 && j != i ==> y[j] == x[j],
    ensures
        coord_sum_upto(y, k) == coord_sum_upto(x, k) + (if i < k {
            y[i] - x[i]
        } else {
            0
        }),
    decreases k,
{
    if k > 0 {
        lemma_coord_sum_update(x, y, i, (k - 1) as nat);
    }
}

/// A point `p + 2·c + 4·k` (with the sum congruence fixed) is a member.
proof fn lemma_random_point_member(x: Point, before: Point, c: u32, p: int, ksum: int, adj: int)
    requires
        p == 0 || p == 1,
        adj == 0 || adj == 1,
        c < 0x100_0000,
        is_codeword(c),
        pc(c) % 4 == 0,
        pc_upto(c, 24) == pc(c),
        forall|j: int| 0 <= j < 24 ==> (#[trigger] before[j] as int) % 4 == p + 2 * bit(c, j as u32),
        forall|j: int| 1 <= j < 24 ==> #[trigger] x[j] == before[j],
        x[0] == before[0] + 4 * adj,
        coord_sum_upto(before, 24) == 24 * p + 2 * pc_upto(c, 24) + 4 * ksum,
        coord_sum(x) == coord_sum(before) + 4 * adj,
        (ksum + adj - p) % 2 == 0,
    ensures
        is_member(x),
{
    let q = coord_sum(x);
    let w = pc(c);
    let e = ksum + adj;
    assert(q % 8 == 4 * p) by (nonlinear_arith)
        requires
            q == 24 * p + 2 * w + 4 * e,
            w % 4 == 0,
            (e - p) % 2 == 0,
            p == 0 || p == 1,
    ;
    let v0 = x[0] as int;
    let b0 = before[0] as int;
    assert(v0 % 4 == p + 2 * bit(c, 0)) by (nonlinear_arith)
        requires
            v0 == b0 + 4 * adj,
            b0 % 4 == p + 2 * bit(c, 0),
    ;
    assert forall|j: int| 0 <= j < 24 implies (#[trigger] x[j] as int) % 4 == p + 2 * bit(
        c,
        j as u32,
    ) by {
        if j != 0 {
            assert(x[j] == before[j]);
        }
    }
    assert forall|j: int| 0 <= j < 24 implies (#[trigger] x[j] as int) % 2 == p by {
        let v = x[j] as int;
        let b = bit(c, j as u32) as int;
        assert(v % 2 == p) by (nonlinear_arith)
            requires
                v % 4 == p + 2 * b,
                p == 0 || p == 1,
        ;
    }
    assert(par(x) == p);
    assert(uniform_parity(x));
    lemma_word_bits(x);
    assert forall|j: u32| j < 24 implies bit(golay_word(x), j) == bit(c, j) by {
        assert(bit(c, j) <= 1) by (bit_vector);
        assert(on_word(x, j as int) == (bit(c, j) == 1));
    }
    lemma_eq_by_bits(golay_word(x), c);
}

proof fn lemma_even_shift(a: int)
    ensures
        (a + 0x100_0000_0000) % 2 == a % 2,
        (a + 1) % 2 == (if a % 2 == 0 { 1int } else { 0int }),
{
}

/// `v + 2^32` as an unsigned number (same residues modulo 8 as `v`).
fn lift(v: i32) -> (u: u64)
    ensures
        u == v + 0x1_0000_0000,
{
    (v as i64 + 0x1_0000_0000) as u64
}

proof fn lemma_lift_residues(v: int)
    ensures
        (v + 0x1_0000_0000) % 2 == v % 2,
        (v + 0x1_0000_0000) % 4 == v % 4,
        (v + 0x1_0000_0000) % 8 == v % 8,
{
    vstd::arithmetic::div_mod::lemma_mod_multiples_vanish(0x8000_0000, v, 2);
    vstd::arithmetic::div_mod::lemma_mod_multiples_vanish(0x4000_0000, v, 4);
    vstd::arithmetic::div_mod::lemma_mod_multiples_vanish(0x2000_0000, v, 8);
}

proof fn lemma_coord_sum_add(a: Point, b: Point, s: Point, k: nat)
    requires
        k <= 24,
        forall|i: int| 0 <= i < 24 ==> #[trigger] s[i] == a[i] + b[i],
    ensures
        coord_sum_upto(s, k) == coord_sum_upto(a, k) + coord_sum_upto(b, k),
    decreases k,
{
    if k > 0 {
        lemma_coord_sum_add(a, b, s, (k - 1) as nat);
    }
}

proof fn lemma_coord_sum_neg(a: Point, n: Point, k: nat)
    requires
        k <= 24,
        forall|i: int| 0 <= i < 24 ==> #[trigger] n[i] == -a[i],
    ensures
        coord_sum_upto(n, k) == -coord_sum_upto(a, k),
    decreases k,
{
    if k > 0 {
        lemma_coord_sum_neg(a, n, (k - 1) as nat);
    }
}

/// The all-ones word is a codeword, and a codeword plus a codeword (or plus
/// the all-ones word) is a codeword.
proof fn lemma_codeword_sum(c: u32, d: u32, flip: bool)
    requires
        is_codeword(c),
        is_codeword(d),
    ensures
        is_codeword(c ^ d ^ (if flip { 0xFF_FFFFu32 } else { 0u32 })),
{
    let mc = choose|m: u32| m < 4096 && #[trigger] crate::golay::encode_spec(m) == c;
    let md = choose|m: u32| m < 4096 && #[trigger] crate::golay::encode_spec(m) == d;
    crate::golay::lemma_codeword_xor(mc, md);
    let m = mc ^ md;
    if flip {
        assert(crate::golay::encode_spec(2787) == 0xFF_FFFFu32) by (bit_vector);
        crate::golay::lemma_codeword_xor(m, 2787);
        assert(crate::golay::encode_spec(m ^ 2787) == c ^ d ^ 0xFF_FFFFu32);
    } else {
        assert(c ^ d ^ 0u32 == c ^ d) by (bit_vector);
    }
}

/// Bits of a three-way exclusive or.
proof fn lemma_bit_xor3(c: u32, d: u32, k: u32, i: u32)
    requires
        i < 24,
    ensures
        bit(c ^ d ^ k, i) == (bit(c, i) + bit(d, i) + bit(k, i)) % 2,
        bit(c, i) <= 1,
        c < 0x100_0000 && d < 0x100_0000 && k < 0x100_0000 ==> c ^ d ^ k < 0x100_0000,
        bit(0xFF_FFFFu32, i) == 1,
        bit(0u32, i) == 0,
{
    assert(((c ^ d ^ k) >> i) & 1 == (((c >> i) & 1) + ((d >> i) & 1) + ((k >> i) & 1)) % 2
        && (c >> i) & 1 <= 1 && (c < 0x100_0000 && d < 0x100_0000 && k < 0x100_0000 ==> c ^ d ^ k
        < 0x100_0000) && (0xFF_FFFFu32 >> i) & 1 == 1 && (0u32 >> i) & 1 == 0) by (bit_vector)
        requires
            i < 24,
    ;
}

/// The lattice is closed under addition.
#[verifier::spinoff_prover]
#[verifier::rlimit(40)]
pub proof fn lemma_member_add(a: Point, b: Point, s: Point)
    requires
        is_member(a),
        is_member(b),
        forall|i: int| 0 <= i < 24 ==> #[trigger] s[i] == a[i] + b[i],
    ensures
        is_member(s),
{
    let pa = par(a);
    let pb = par(b);
    let ca = golay_word(a);
    let cb = golay_word(b);
    let flip = pa == 1 && pb == 1;
    let k: u32 = if flip { 0xFF_FFFFu32 } else { 0u32 };
    lemma_word_bits(a);
    lemma_word_bits(b);
    lemma_word_bits(s);
    assert forall|i: int| 0 <= i < 24 implies #[trigger] (s[i] as int) % 2 == (pa + pb) % 2 && bit(
        golay_word(s),
        i as u32,
    ) == bit(ca ^ cb ^ k, i as u32) by {
        lemma_bit_xor3(ca, cb, k, i as u32);
        lemma_bit_xor3(golay_word(s), cb, k, i as u32);
        assert((a[i] as int) % 2 == pa);
        assert((b[i] as int) % 2 == pb);
        assert(bit(ca, i as u32) == (if on_word(a, i) { 1u32 } else { 0u32 }));
        assert(bit(cb, i as u32) == (if on_word(b, i) { 1u32 } else { 0u32 }));
        assert(bit(golay_word(s), i as u32) == (if on_word(s, i) { 1u32 } else { 0u32 }));
    }
    assert(par(s) == (pa + pb) % 2);
    lemma_bit_xor3(ca, cb, k, 0);
    assert forall|i: u32| i < 24 implies bit(golay_word(s), i) == bit(ca ^ cb ^ k, i) by {}
    lemma_eq_by_bits(golay_word(s), ca ^ cb ^ k);
    lemma_codeword_sum(ca, cb, flip);
    lemma_coord_sum_add(a, b, s, 24);
}

/// The lattice is closed under negation.
#[verifier::spinoff_prover]
pub proof fn lemma_member_neg(a: Point, n: Point)
    requires
        is_member(a),
        forall|i: int| 0 <= i < 24 ==> #[trigger] n[i] == -a[i],
    ensures
        is_member(n),
{
    let p = par(a);
    let c = golay_word(a);
    let flip = p == 1;
    let k: u32 = if flip { 0xFF_FFFFu32 } else { 0u32 };
    lemma_word_bits(a);
    lemma_word_bits(n);
    assert(is_codeword(0u32)) by {
        assert(crate::golay::encode_spec(0) == 0u32) by (bit_vector);
    }
    assert forall|i: int| 0 <= i < 24 implies #[trigger] (n[i] as int) % 2 == p && bit(
        golay_word(n),
        i as u32,
    ) == bit(c ^ 0u32 ^ k, i as u32) by {
        lemma_bit_xor3(c, 0u32, k, i as u32);
        assert((a[i] as int) % 2 == p);
        assert(bit(c, i as u32) == (if on_word(a, i) { 1u32 } else { 0u32 }));
        assert(bit(golay_word(n), i as u32) == (if on_word(n, i) { 1u32 } else { 0u32 }));
    }
    assert(par(n) == p);
    lemma_bit_xor3(c, 0u32, k, 0);
    assert forall|i: u32| i < 24 implies bit(golay_word(n), i) == bit(c ^ 0u32 ^ k, i) by {}
    lemma_eq_by_bits(golay_word(n), c ^ 0u32 ^ k);
    lemma_codeword_sum(c, 0u32, flip);
    lemma_coord_sum_neg(a, n, 24);
}

/// Parity drawn by [`Leech::random_point`] from the stream at state `s`.
pub open spec fn draw_parity(s: u64) -> int {
    (splitmix_output(s, 1) % 2) as int
}

/// Position in the codeword list drawn from the stream at state `s`.
pub open spec fn draw_word_index(s: u64) -> int {
    (splitmix_output(s, 2) % 4096) as int
}

/// Offset `k_i ∈ [-spread, spread]` drawn for coordinate `i`.
pub open spec fn draw_offset(s: u64, spread: int, i: int) -> int {
    (splitmix_output(s, (3 + i) as nat) % ((2 * spread + 1) as u64)) as int - spread
}

/// `Σ_{i < k} k_i`.
pub open spec fn draw_offset_sum(s: u64, spread: int, k: int) -> int
    decreases k,
{
    if k <= 0 {
        0
    } else {
        draw_offset_sum(s, spread, k - 1) + draw_offset(s, spread, k - 1)
    }
}

/// Coordinate `i` of the point drawn with codeword `c`: `p + 2·c_i + 4·k_i`,
/// plus 4 on coordinate 0 when `Σ k_i − p` is odd.
pub open spec fn drawn_coord(s: u64, spread: int, c: u32, i: int) -> int {
    let p = draw_parity(s);
    p + 2 * bit(c, i as u32) + 4 * draw_offset(s, spread, i) + if i == 0 && (draw_offset_sum(
        s,
        spread,
        24,
    ) - p) % 2 != 0 {
        4int
    } else {
        0int
    }
}

/// The Leech lattice, backed by the extended Golay code.
pub struct Leech {
    golay: Golay,
}

impl Leech {
    pub closed spec fn wf(&self) -> bool {
        self.golay.wf()
    }

    /// The code table this lattice uses.
    pub closed spec fn code(&self) -> Golay {
        self.golay
    }

    /// A well-formed lattice has a well-formed code table.
    pub proof fn lemma_code_wf(&self)
        requires
            self.wf(),
        ensures
            self.code().wf(),
    {
    }

    pub fn new() -> (l: Self)
        ensures
            l.wf(),
    {
        Leech { golay: Golay::new() }
    }

    /// The underlying Golay code.
    pub fn golay(&self) -> (g: &Golay)
        requires
            self.wf(),
        ensures
            g.wf(),
            *g == self.code(),
    {
        &self.golay
    }

    /// Exact membership test for the integer embedding of the lattice.
    pub fn contains(&self, x: &Point) -> (r: bool)
        requires
            self.wf(),
        ensures
            r == is_member(*x),
    {
        let p = lift(x[0]) % 2;
        proof {
            lemma_lift_residues(x[0] as int);
        }
        let mut word: u32 = 0;
        let mut s: u64 = 0;
        let mut i: usize = 0;
        while i < 24
            invariant
                i <= 24,
                p == par(*x),
                word == word_upto(*x, i as nat),
                s == coord_sum_upto(*x, i as nat) + i * 0x1_0000_0000,
                0 <= s <= i * 0x2_0000_0000,
                forall|j: int| 0 <= j < i ==> (x[j] as int) % 2 == par(*x),
            decreases 24 - i,
        {
            let u = lift(x[i]);
            proof {
                lemma_lift_residues(x[i as int] as int);
            }
            if u % 2 != p {
                return false;
            }
            if u % 4 == 2 + p {
                word = word | (1u32 << (i as u32));
            } else {
                word = word | 0u32;
            }
            s = s + u;
            i = i + 1;
        }
        if !self.golay.contains(word) {
            return false;
        }
        proof {
            lemma_lift_residues(coord_sum(*x));
            assert((coord_sum(*x) + 24 * 0x1_0000_0000) % 8 == coord_sum(*x) % 8);
        }
        s % 8 == 4 * p
    }

    /// The mod-4 pattern of `x` (meaningful when all coordinates share the
    /// parity of the first).
    pub(crate) fn support_word(x: &Point) -> (c: u32)
        ensures
            c == golay_word(*x),
    {
        let p = lift(x[0]) % 2;
        proof {
            lemma_lift_residues(x[0] as int);
        }
        let mut word: u32 = 0;
        let mut i: usize = 0;
        while i < 24
            invariant
                i <= 24,
                p == par(*x),
                word == word_upto(*x, i as nat),
            decreases 24 - i,
        {
            let u = lift(x[i]);
            proof {
                lemma_lift_residues(x[i as int] as int);
            }
            if u % 4 == 2 + p {
                word = word | (1u32 << (i as u32));
            } else {
                word = word | 0u32;
            }
            i = i + 1;
        }
        word
    }

    /// Draws a lattice point `x_i = p + 2·c_i + 4·k_i` from a random parity
    /// `p`, a random codeword `c` and offsets `k_i ∈ [-spread, spread]`
    /// (one of them nudged by one to fix the sum congruence). Consumes 26
    /// outputs of `rng`.
    #[verifier::spinoff_prover]
    #[verifier::rlimit(40)]
    pub fn random_point(&self, rng: &mut SplitMix64, spread: i32) -> (x: Point)
        requires
            self.wf(),
            1 <= spread <= MAX_SPREAD,
        ensures
            is_member(x),
            forall|i: int| 0 <= i < 24 ==> -4 * spread <= #[trigger] x[i] <= 4 * spread + 7,
            forall|i: int|
                0 <= i < 24 ==> #[trigger] x[i] == drawn_coord(
                    old(rng).0,
                    spread as int,
                    self.code().words()[draw_word_index(old(rng).0)],
                    i,
                ),
            final(rng).0 == splitmix_advance(old(rng).0, 26),
    {
        let ghost s0 = rng.0;
        let r0 = rng.next();
        assert(rng.0 == splitmix_advance(s0, 1)) by {
            reveal_with_fuel(splitmix_advance, 2);
        }
        let pb = r0 & 1;
        assert(pb <= 1 && pb == r0 % 2) by (bit_vector)
            requires
                pb == r0 & 1,
        ;
        let p = pb as i32;
        assert(p == draw_parity(s0));
        let r1 = rng.next();
        assert(rng.0 == splitmix_advance(s0, 2)) by {
            reveal_with_fuel(splitmix_advance, 3);
        }
        let idx = (r1 % 4096) as usize;
        assert(idx == draw_word_index(s0));
        let words = self.golay.codewords();
        let c = words[idx];
        proof {
            self.golay.lemma_words_are_codewords(idx as int);
            let m = choose|m: u32| m < 4096 && #[trigger] crate::golay::encode_spec(m) == c;
            lemma_codeword_weights(m);
            lemma_pc_24(c);
        }
        let mut x = [0i32; 24];
        let mut ksum: i64 = 0;
        let width = (2 * spread + 1) as u64;
        let mut i: usize = 0;
        while i < 24
            invariant
                i <= 24,
                1 <= spread <= MAX_SPREAD,
                width == 2 * spread + 1,
                rng.0 == splitmix_advance(s0, (2 + i) as nat),
                p == 0 || p == 1,
                c < 0x100_0000,
                -(i * MAX_SPREAD) <= ksum <= i * MAX_SPREAD,
                ksum == draw_offset_sum(s0, spread as int, i as int),
                forall|j: int| 0 <= j < i ==> (#[trigger] x[j] as int) % 4 == p + 2 * bit(c, j as u32),
                forall|j: int| 0 <= j < i ==> -4 * spread <= #[trigger] x[j] <= 4 * spread + 3,
                forall|j: int|
                    0 <= j < i ==> #[trigger] x[j] == p + 2 * bit(c, j as u32) + 4 * draw_offset(
                        s0,
                        spread as int,
                        j,
                    ),
                coord_sum_upto(x, i as nat) == (if p == 1 { i as int } else { 0 }) + 2 * pc_upto(c, i as u32) + 4 * ksum,
            decreases 24 - i,
        {
            let r = rng.next();
            proof {
                assert(rng.0 == splitmix_advance(s0, (3 + i) as nat));
                assert(r == splitmix_output(s0, (3 + i) as nat));
            }
            let k = (r % width) as i32 - spread;
            assert(k == draw_offset(s0, spread as int, i as int));
            ksum = ksum + k as i64;
            let bu = (c >> (i as u32)) & 1;
            assert(bu <= 1) by (bit_vector)
                requires
                    bu == (c >> (i as u32)) & 1,
            ;
            let b = bu as i32;
            let ghost old_x = x;
            x[i] = p + 2 * b + 4 * k;
            proof {
                lemma_coord_sum_update(old_x, x, i as int, i as nat);
                lemma_coord_sum_update(old_x, x, i as int, (i + 1) as nat);
                assert(coord_sum_upto(x, (i + 1) as nat) == coord_sum_upto(x, i as nat) + x[i as int]);
                let v = x[i as int] as int;
                assert(v % 4 == p + 2 * b) by (nonlinear_arith)
                    requires
                        v == p + 2 * b + 4 * k,
                        0 <= p + 2 * b < 4,
                ;
                assert(ksum == draw_offset_sum(s0, spread as int, (i + 1) as int));
            }
            i = i + 1;
        }
        let t = (ksum + 0x100_0000_0000 - p as i64) as u64;
        let ghost before = x;
        if t % 2 != 0 {
            x[0] = x[0] + 4;
        }
        proof {
            let adj: int = if t % 2 != 0 { 1 } else { 0 };
            lemma_coord_sum_update(before, x, 0, 24);
            assert(coord_sum_upto(before, 24) == 24 * p + 2 * pc_upto(c, 24) + 4 * ksum);
            let a = ksum - p;
            assert((t % 2 != 0) == (a % 2 != 0)) by {
                let tt = t as int;
                assert(tt == a + 0x100_0000_0000);
                lemma_even_shift(a);
            }
            assert((ksum + adj - p) % 2 == 0) by {
                lemma_even_shift(a);
            }
            assert(forall|j: int| 1 <= j < 24 ==> #[trigger] x[j] == before[j]);
            assert(x[0] == before[0] + 4 * adj);
            lemma_random_point_member(x, before, c, p as int, ksum as int, adj);
            assert(c == self.code().words()[draw_word_index(s0)]);
            assert forall|j: int| 0 <= j < 24 implies #[trigger] x[j] == drawn_coord(
                s0,
                spread as int,
                c,
                j,
            ) by {
                if j != 0 {
                    assert(x[j] == before[j]);
                }
            }
        }
        x
    }

    /// Squared Euclidean norm, exact for every `[i32; 24]`.
    pub fn norm2(x: &Point) -> (n: i128)
        ensures
            n == norm(*x),
            0 <= n <= 24 * 0x4000_0000_0000_0000,
    {
        let mut n: i128 = 0;
        let mut i: usize = 0;
        while i < 24
            invariant
                i <= 24,
                n == norm_upto(*x, i as nat),
                0 <= n <= i * 0x4000_0000_0000_0000,
            decreases 24 - i,
        {
            let v = x[i] as i128;
            assert(0 <= v * v <= 0x4000_0000_0000_0000) by (nonlinear_arith)
                requires
                    -0x8000_0000 <= v < 0x8000_0000,
            ;
            n = n + v * v;
            i = i + 1;
        }
        n
    }

    /// Shell index `m` with `‖x‖² = 16m`, if the norm is a multiple of 16
    /// (necessary but not sufficient for membership).
    pub fn shell_index(x: &Point) -> (r: Option<u64>)
        ensures
            r is Some <==> norm(*x) % 16 == 0,
            r matches Some(m) ==> norm(*x) == 16 * m,
    {
        let n = Self::norm2(x) as u128;
        assert(n == norm(*x));
        if n % 16 == 0 {
            assert(n == 16 * (n / 16));
            Some((n / 16) as u64)
        } else {
            None
        }
    }

    /// Component-wise sum.
    pub fn add(a: &Point, b: &Point) -> (r: Point)
        requires
            forall|i: int| 0 <= i < 24 ==> i32::MIN <= #[trigger] a[i] + b[i] <= i32::MAX,
        ensures
            forall|i: int| 0 <= i < 24 ==> r[i] == a[i] + b[i],
    {
        let mut out = [0i32; 24];
        let mut i: usize = 0;
        while i < 24
            invariant
                i <= 24,
                forall|k: int| 0 <= k < 24 ==> i32::MIN <= #[trigger] a[k] + b[k] <= i32::MAX,
                forall|j: int| 0 <= j < i ==> out[j] == a[j] + b[j],
            decreases 24 - i,
        {
            out[i] = a[i] + b[i];
            i = i + 1;
        }
        out
    }

    /// Component-wise negation.
    pub fn neg(a: &Point) -> (r: Point)
        requires
            forall|i: int| 0 <= i < 24 ==> a[i] > i32::MIN,
        ensures
            forall|i: int| 0 <= i < 24 ==> r[i] == -a[i],
    {
        let mut out = [0i32; 24];
        let mut i: usize = 0;
        while i < 24
            invariant
                i <= 24,
                forall|k: int| 0 <= k < 24 ==> #[trigger] a[k] > i32::MIN,
                forall|j: int| 0 <= j < i ==> out[j] == -a[j],
            decreases 24 - i,
        {
            out[i] = -a[i];
            i = i + 1;
        }
        out
    }
}


impl Default for Leech {
    fn default() -> (r: Self)
        ensures
            r.wf(),
    {
        Self::new()
    }
}

} // verus!
