//! Exhaustive enumeration of the shells 2 and 3, class by class.
//!
//! * Shell(2) = (±2⁸ on octads, even −) ∪ (±4²) ∪ (±3, ±1²³)
//!   = 97 152 + 1 104 + 98 304 = 196 560
//! * Shell(3) = (±2¹² on dodecads, even −) ∪ (±4, ±2⁸ odd −) ∪
//!   (±5, ±1²³) ∪ (±3³, ±1²¹)
//!   = 5 275 648 + 3 108 864 + 98 304 + 8 290 304 = 16 773 120
//!
//! Every emitted vector is proved to be a lattice point of the requested
//! shell before it is handed to the visitor; the walk is proved to emit every
//! point of the shell exactly once (each emitted point carries a key, the keys
//! increase along the walk, a key fixes its point, and every lattice point of
//! the shell has a key the walk reaches). Every lattice point of either shell
//! has one of the listed shapes ([`lemma_shell2_shapes`],
//! [`lemma_shell3_shapes`]).
use vstd::prelude::*;

use crate::ball::{
    absv, hist, lemma_codeword_facts, lemma_even_parse, lemma_hist_present, lemma_odd_parse,
    lemma_even_sum_mod8, lemma_norm_psum, lemma_odd_sum_mod8, lemma_pc_upto_step, lemma_psum_bits,
    lemma_psum_ext, lemma_psum_linear, lemma_psum_zero_all, lemma_reindex_on, neg_on, neg_on_f,
    odd_coord, odd_g, on_slot, psum, lemma_pc_upto_mono, lemma_coord_small, lemma_hist_nonneg,
    lemma_hist_total, lemma_hist_absent, lemma_psum_pair, lemma_psum_triple, lemma_psum_single_value,
    ind, abs_seq,
};
use crate::golay::{
    bit, encode_spec, is_codeword, lemma_eq_by_bits, lemma_or_bit, pc, pc_upto, strictly_increasing,
    Golay,
};
use crate::leech::{coord_sum, golay_word, is_member, lemma_word_bits, norm, par, Leech, Point};

verus! {

/// Changing a summand at one position changes the sum by the difference.
pub(crate) proof fn lemma_psum_update(f: spec_fn(int) -> int, g: spec_fn(int) -> int, n: int, p: int)
    requires
        0 <= p < n,
        forall|i: int| 0 <= i < n && i != p ==> #[trigger] f(i) == g(i),
    ensures
        psum(f, n) == psum(g, n) + f(p) - g(p),
    decreases n,
{
    if n - 1 > p {
        lemma_psum_update(f, g, n - 1, p);
    } else {
        lemma_psum_ext(f, g, n - 1);
    }
}

pub(crate) proof fn lemma_psum_const_val(b: int, n: int)
    requires
        0 <= n,
    ensures
        psum(|i: int| b, n) == n * b,
    decreases n,
{
    if n > 0 {
        lemma_psum_const_val(b, n - 1);
        assert((n - 1) * b + b == n * b) by (nonlinear_arith);
        assert(psum(|i: int| b, n) == psum(|i: int| b, n - 1) + b);
    } else {
        assert(n * b == 0) by (nonlinear_arith)
            requires
                n == 0,
        ;
        assert(psum(|i: int| b, n) == 0);
    }
}

/// `a` on the positions of `t`, `b` elsewhere.
pub open spec fn marked(t: Seq<int>, a: int, b: int) -> spec_fn(int) -> int {
    |i: int|
        if t.contains(i) {
            a
        } else {
            b
        }
}

/// The sum of a function that is `a` on the distinct positions of `t` and
/// `b` elsewhere.
pub(crate) proof fn lemma_psum_marked(t: Seq<int>, a: int, b: int)
    requires
        forall|j: int| 0 <= j < t.len() ==> 0 <= #[trigger] t[j] < 24,
        forall|j: int, k: int| 0 <= j < k < t.len() ==> #[trigger] t[j] != #[trigger] t[k],
    ensures
        psum(marked(t, a, b), 24) == 24 * b + t.len() * (a - b),
    decreases t.len(),
{
    if t.len() == 0 {
        lemma_psum_ext(marked(t, a, b), |i: int| b, 24);
        lemma_psum_const_val(b, 24);
        assert(t.len() * (a - b) == 0);
    } else {
        let r = t.drop_last();
        let p = t.last();
        lemma_psum_marked(r, a, b);
        assert forall|i: int| 0 <= i < 24 && i != p implies #[trigger] marked(t, a, b)(i) == marked(
            r,
            a,
            b,
        )(i) by {
            if t.contains(i) {
                let j = choose|j: int| 0 <= j < t.len() && t[j] == i;
                assert(j < r.len());
                assert(r[j] == i);
            }
            if r.contains(i) {
                let j = choose|j: int| 0 <= j < r.len() && r[j] == i;
                assert(t[j] == i);
            }
        }
        assert(t.contains(p));
        assert(!r.contains(p)) by {
            if r.contains(p) {
                let j = choose|j: int| 0 <= j < r.len() && r[j] == p;
                assert(t[j] == t[t.len() - 1]);
            }
        }
        lemma_psum_update(marked(t, a, b), marked(r, a, b), 24, p);
        let n = r.len() as int;
        assert(n * (a - b) + (a - b) == (n + 1) * (a - b)) by (nonlinear_arith);
    }
}


/// An odd vector following the sign rule of a codeword, with absolute value
/// `a` on the positions of `t` and 1 elsewhere, is a lattice point.
proof fn lemma_odd_member(x: Point, c: u32, a: int, t: Seq<int>)
    requires
        is_codeword(c),
        (a == 3 && (t.len() == 1 || t.len() == 3)) || (a == 5 && t.len() == 1),
        forall|j: int| 0 <= j < t.len() ==> 0 <= #[trigger] t[j] < 24,
        forall|j: int, k: int| 0 <= j < k < t.len() ==> #[trigger] t[j] != #[trigger] t[k],
        forall|i: int|
            0 <= i < 24 ==> #[trigger] x[i] == odd_coord(marked(t, a, 1)(i), bit(c, i as u32) == 1),
    ensures
        is_member(x),
        norm(x) == 24 + t.len() * (a * a - 1),
{
    lemma_codeword_facts(c);
    assert forall|i: int| 0 <= i < 24 implies #[trigger] bit(c, i as u32) <= 1 by {
        lemma_pc_upto_step(c, i);
    }
    assert forall|i: int| #![trigger x[i]] 0 <= i < 24 implies {
        &&& absv(x[i] as int) == marked(t, a, 1)(i)
        &&& absv(x[i] as int) % 2 == 1
        &&& bit(c, i as u32) <= 1
        &&& x[i] == odd_coord(absv(x[i] as int), bit(c, i as u32) == 1)
        &&& (x[i] as int) % 2 == 1
        &&& odd_g(absv(x[i] as int)) == marked(t, odd_g(a), 1)(i)
        &&& x[i] * x[i] == marked(t, a * a, 1)(i)
        &&& ((x[i] as int) % 4 == 3) == (bit(c, i as u32) == 1)
    } by {
        lemma_pc_upto_step(c, i);
        let on = bit(c, i as u32) == 1;
        if t.contains(i) {
            assert(marked(t, a, 1)(i) == a);
            assert(marked(t, odd_g(a), 1)(i) == odd_g(a));
            assert(marked(t, a * a, 1)(i) == a * a);
            if a == 3 {
                if on {
                    assert(x[i] == 3);
                } else {
                    assert(x[i] == -3);
                }
            } else {
                if on {
                    assert(x[i] == -5);
                } else {
                    assert(x[i] == 5);
                }
            }
        } else {
            assert(marked(t, a, 1)(i) == 1);
            assert(marked(t, odd_g(a), 1)(i) == 1);
            assert(marked(t, a * a, 1)(i) == 1);
            if on {
                assert(x[i] == -1);
            } else {
                assert(x[i] == 1);
            }
        }
    }
    lemma_odd_sum_mod8(x, c);
    lemma_psum_ext(|i: int| odd_g(absv(x[i] as int)), marked(t, odd_g(a), 1), 24);
    lemma_psum_marked(t, odd_g(a), 1);
    lemma_norm_psum(x);
    lemma_psum_ext(|i: int| x[i] * x[i], marked(t, a * a, 1), 24);
    lemma_psum_marked(t, a * a, 1);
    let cs = coord_sum(x);
    let w = pc(c);
    let sg = 24 + t.len() * (odd_g(a) - 1);
    assert(w % 4 == 0);
    assert(sg % 8 == 4);
    assert(cs % 8 == 4) by (nonlinear_arith)
        requires
            (cs - sg + 2 * w) % 8 == 0,
            w % 4 == 0,
            sg % 8 == 4,
    ;
    assert(par(x) == 1);
    lemma_word_bits(x);
    assert forall|i: u32| i < 24 implies bit(golay_word(x), i) == bit(c, i) by {
        assert(((x[i as int] as int) % 4 == 3) == (bit(c, i) == 1));
        assert(bit(c, i) <= 1);
    }
    lemma_eq_by_bits(golay_word(x), c);
}


/// An even vector that is ±2 on the support of a codeword (with `n` minus
/// signs there), zero elsewhere except an optional ±4 off the support, is a
/// lattice point when the sum congruence holds.
proof fn lemma_two_member(x: Point, c: u32, n: int, e: int, p4: int)
    requires
        is_codeword(c),
        e == 0 || e == 1,
        e == 1 ==> 0 <= p4 < 24 && bit(c, p4 as u32) == 0 && (x[p4] == 4 || x[p4] == -4),
        forall|i: int|
            0 <= i < 24 ==> (bit(c, i as u32) == 1 ==> (#[trigger] x[i] == 2 || x[i] == -2)) && (bit(
                c,
                i as u32,
            ) == 0 && !(e == 1 && i == p4) ==> x[i] == 0),
        neg_on(x, c) == n,
        (2 * pc(c) + 4 * e + 4 * n) % 8 == 0,
    ensures
        is_member(x),
        norm(x) == 4 * pc(c) + 16 * e,
{
    lemma_codeword_facts(c);
    let tp: Seq<int> = if e == 1 {
        seq![p4]
    } else {
        Seq::empty()
    };
    assert forall|i: int| 0 <= i < 24 implies #[trigger] bit(c, i as u32) <= 1 by {
        lemma_pc_upto_step(c, i);
    }
    assert forall|i: int| #![trigger x[i]] 0 <= i < 24 implies {
        &&& (x[i] as int) % 2 == 0
        &&& absv(x[i] as int) == marked(tp, 4, 0)(i) + 2 * (bit(c, i as u32) as int)
        &&& (bit(c, i as u32) == 1) == (absv(x[i] as int) % 4 == 2)
        &&& x[i] * x[i] == marked(tp, 16, 0)(i) + 4 * (bit(c, i as u32) as int)
        &&& ((x[i] as int) % 4 == 2) == (bit(c, i as u32) == 1)
    } by {
        lemma_pc_upto_step(c, i);
        let not_in = !tp.contains(i);
        if !(e == 1 && i == p4) {
            assert(not_in) by {
                if tp.contains(i) {
                    let j = choose|j: int| 0 <= j < tp.len() && tp[j] == i;
                    assert(j == 0);
                }
            }
        }
        if bit(c, i as u32) == 1 {
            assert(not_in);
            if x[i] == 2 {
                let v = x[i] as int;
                assert(v * v == 4) by (nonlinear_arith)
                    requires
                        v == 2,
                ;
            } else {
                assert(x[i] == -2);
                let v = x[i] as int;
                assert(v * v == 4) by (nonlinear_arith)
                    requires
                        v == -2,
                ;
            }
        } else if e == 1 && i == p4 {
            assert(tp[0] == i);
            assert(tp.contains(i));
            if x[i] == 4 {
                let v = x[i] as int;
                assert(v * v == 16) by (nonlinear_arith)
                    requires
                        v == 4,
                ;
            } else {
                assert(x[i] == -4);
                let v = x[i] as int;
                assert(v * v == 16) by (nonlinear_arith)
                    requires
                        v == -4,
                ;
            }
        } else {
            assert(x[i] == 0);
        }
    }
    lemma_even_sum_mod8(x, c);
    let fb = |i: int| bit(c, i as u32) as int;
    lemma_psum_bits(c, 24);
    lemma_psum_ext(fb, |i: int| bit(c, i as u32) as int, 24);
    lemma_psum_linear(|i: int| absv(x[i] as int), marked(tp, 4, 0), fb, 2, 24);
    lemma_psum_marked(tp, 4, 0);
    lemma_norm_psum(x);
    lemma_psum_linear(|i: int| x[i] * x[i], marked(tp, 16, 0), fb, 4, 24);
    lemma_psum_marked(tp, 16, 0);
    assert(tp.len() == e);
    assert(coord_sum(x) % 8 == 0);
    assert(par(x) == 0);
    lemma_word_bits(x);
    assert forall|i: u32| i < 24 implies bit(golay_word(x), i) == bit(c, i) by {
        assert(((x[i as int] as int) % 4 == 2) == (bit(c, i) == 1));
        assert(bit(c, i) <= 1);
    }
    lemma_eq_by_bits(golay_word(x), c);
}

/// A vector with ±4 at two positions and zero elsewhere is a lattice point
/// of norm 32.
proof fn lemma_four_member(x: Point, i1: int, i2: int)
    requires
        0 <= i1 < i2 < 24,
        x[i1] == 4 || x[i1] == -4,
        x[i2] == 4 || x[i2] == -4,
        forall|i: int| 0 <= i < 24 && i != i1 && i != i2 ==> #[trigger] x[i] == 0,
    ensures
        is_member(x),
        norm(x) == 32,
{
    assert(encode_spec(0) == 0) by (bit_vector);
    assert(is_codeword(0));
    lemma_codeword_facts(0);
    let t = seq![i1, i2];
    assert forall|i: int| #![trigger x[i]] 0 <= i < 24 implies {
        &&& (x[i] as int) % 4 == 0
        &&& x[i] * x[i] == marked(t, 16, 0)(i)
    } by {
        if i == i1 || i == i2 {
            if i == i1 {
                assert(t[0] == i);
            } else {
                assert(t[1] == i);
            }
            assert(t.contains(i));
            if x[i] == 4 {
                let v = x[i] as int;
                assert(v * v == 16) by (nonlinear_arith)
                    requires
                        v == 4,
                ;
            } else {
                assert(x[i] == -4);
                let v = x[i] as int;
                assert(v * v == 16) by (nonlinear_arith)
                    requires
                        v == -4,
                ;
            }
        } else {
            assert(!t.contains(i)) by {
                if t.contains(i) {
                    let j = choose|j: int| 0 <= j < t.len() && t[j] == i;
                    assert(j == 0 || j == 1);
                }
            }
            assert(x[i] == 0);
        }
    }
    lemma_norm_psum(x);
    lemma_psum_ext(|i: int| x[i] * x[i], marked(t, 16, 0), 24);
    lemma_psum_marked(t, 16, 0);
    // the coordinate sum is ±4 ± 4
    let z = |i: int| 0int;
    lemma_psum_zero_all(z, 24);
    let f1 = |i: int| if i == i1 { x[i1] as int } else { 0int };
    lemma_psum_update(f1, z, 24, i1);
    lemma_psum_update(|i: int| x[i] as int, f1, 24, i2);
    assert(coord_sum(x) % 8 == 0);
    assert(par(x) == 0);
    lemma_word_bits(x);
    assert forall|i: u32| i < 24 implies bit(golay_word(x), i) == bit(0, i) by {
        assert((x[i as int] as int) % 4 == 0);
        assert(bit(0, i) == 0) by (bit_vector);
    }
    lemma_eq_by_bits(golay_word(x), 0);
}


/// ±1 base of the odd coset: −1 on the support of `c`, +1 off it.
pub fn ones_base(c: u32) -> (x: Point)
    ensures
        forall|i: int| 0 <= i < 24 ==> #[trigger] x[i] == (if bit(c, i as u32) == 1 { -1i32 } else { 1i32 }),
{
    let mut x: Point = [1i32; 24];
    let mut i: usize = 0;
    while i < 24
        invariant
            i <= 24,
            forall|k: int| 0 <= k < i ==> #[trigger] x[k] == (if bit(c, k as u32) == 1 { -1i32 } else { 1i32 }),
            forall|k: int| i <= k < 24 ==> #[trigger] x[k] == 1,
        decreases 24 - i,
    {
        if (c >> (i as u32)) & 1 == 1 {
            x[i] = -1;
        }
        i = i + 1;
    }
    x
}

/// Coordinate `i` of the `±2` pattern on the support of `c`, the signs
/// read from the bits of `s` in support order.
pub open spec fn two_val(c: u32, s: u32, i: int) -> i32 {
    if bit(c, i as u32) == 1 {
        if bit(s, pc_upto(c, i as u32) as u32) == 1 {
            -2i32
        } else {
            2i32
        }
    } else {
        0i32
    }
}

/// `x` is the `±2` pattern of `(c, s)`.
pub open spec fn two_pt(x: Point, c: u32, s: u32) -> bool {
    forall|i: int| 0 <= i < 24 ==> #[trigger] x[i] == two_val(c, s, i)
}

/// `x` is `±4` at `i1 < i2` (signs from the two bits of `sg`), 0 elsewhere.
pub open spec fn four_pt(x: Point, i1: int, i2: int, sg: int) -> bool {
    &&& 0 <= i1 < i2 < 24
    &&& 0 <= sg < 4
    &&& forall|i: int|
        0 <= i < 24 ==> #[trigger] x[i] == (if i == i1 {
            if sg % 2 == 1 {
                -4i32
            } else {
                4i32
            }
        } else if i == i2 {
            if sg / 2 == 1 {
                -4i32
            } else {
                4i32
            }
        } else {
            0i32
        })
}

/// `x` is the odd vector of codeword `c` with absolute value `a` on the
/// positions of `t` and 1 elsewhere.
pub open spec fn odd_pt(x: Point, c: u32, t: Seq<int>, a: int) -> bool {
    forall|i: int|
        0 <= i < 24 ==> #[trigger] x[i] == odd_coord(marked(t, a, 1)(i), bit(c, i as u32) == 1)
}

/// The `±2` pattern of an octad with `±4` added at `p4` off the octad.
pub open spec fn two_four_pt(x: Point, c: u32, s: u32, p4: int, v4: int) -> bool {
    &&& 0 <= p4 < 24
    &&& (v4 == 4 || v4 == -4)
    &&& x[p4] == v4
    &&& forall|i: int| 0 <= i < 24 && i != p4 ==> #[trigger] x[i] == two_val(c, s, i)
}

/// Lexicographic order on emission keys.
pub open spec fn key_lt(a: (int, int, int, int, int, int), b: (int, int, int, int, int, int)) -> bool {
    ||| a.0 < b.0
    ||| a.0 == b.0 && a.1 < b.1
    ||| a.0 == b.0 && a.1 == b.1 && a.2 < b.2
    ||| a.0 == b.0 && a.1 == b.1 && a.2 == b.2 && a.3 < b.3
    ||| a.0 == b.0 && a.1 == b.1 && a.2 == b.2 && a.3 == b.3 && a.4 < b.4
    ||| a.0 == b.0 && a.1 == b.1 && a.2 == b.2 && a.3 == b.3 && a.4 == b.4 && a.5 < b.5
}

/// Every slot below the weight is taken by some support position.
proof fn lemma_slot_exists(c: u32, k: int, j: int)
    requires
        0 <= k <= 24,
        0 <= j < pc_upto(c, k as u32),
    ensures
        exists|i: int| 0 <= i < k && #[trigger] bit(c, i as u32) == 1 && pc_upto(c, i as u32) == j,
    decreases k,
{
    if k == 0 {
        assert(pc_upto(c, 0) == 0);
    } else {
        lemma_pc_upto_step(c, k - 1);
        assert(((k - 1) + 1) as u32 == k as u32);
        if j < pc_upto(c, (k - 1) as u32) {
            lemma_slot_exists(c, k - 1, j);
        } else {
            assert(bit(c, (k - 1) as u32) == 1 && pc_upto(c, (k - 1) as u32) == j);
        }
    }
}

/// The bits of `s` at or above `w` are clear when `s >> w == 0`.
proof fn lemma_high_bits_clear(s: u32, w: u32, j: u32)
    requires
        s >> w == 0,
        w <= j < 32,
    ensures
        bit(s, j) == 0,
{
    assert((s >> j) & 1 == 0) by (bit_vector)
        requires
            s >> w == 0,
            w <= j < 32,
    ;
}

/// Equal supports: the words agree bit by bit.
proof fn lemma_same_word(c1: u32, c2: u32)
    requires
        c1 < 0x100_0000,
        c2 < 0x100_0000,
        forall|i: int| 0 <= i < 24 ==> (bit(c1, i as u32) == 1) == (#[trigger] bit(c2, i as u32) == 1),
    ensures
        c1 == c2,
{
    assert forall|i: u32| i < 24 implies bit(c1, i) == bit(c2, i) by {
        lemma_pc_upto_step(c1, i as int);
        lemma_pc_upto_step(c2, i as int);
        assert(bit(c2, (i as int) as u32) == bit(c2, i));
    }
    lemma_eq_by_bits(c1, c2);
}

/// The `±2` pattern determines its word and its sign bits (the position
/// `skip`, off both words, is left out of the comparison).
proof fn lemma_two_pt_inj(x: Point, c1: u32, s1: u32, c2: u32, s2: u32, w: u32, skip: int)
    requires
        forall|i: int| 0 <= i < 24 && i != skip ==> #[trigger] x[i] == two_val(c1, s1, i),
        forall|i: int| 0 <= i < 24 && i != skip ==> #[trigger] x[i] == two_val(c2, s2, i),
        0 <= skip < 24 ==> bit(c1, skip as u32) == 0 && bit(c2, skip as u32) == 0,
        c1 < 0x100_0000,
        c2 < 0x100_0000,
        pc_upto(c1, 24) == w,
        s1 >> w == 0,
        s2 >> w == 0,
        s1 < 0x100_0000,
        s2 < 0x100_0000,
    ensures
        c1 == c2,
        s1 == s2,
{
    assert forall|i: int| 0 <= i < 24 implies (bit(c1, i as u32) == 1) == (#[trigger] bit(
        c2,
        i as u32,
    ) == 1) by {
        if i != skip {
            assert(x[i] == two_val(c1, s1, i));
            assert(x[i] == two_val(c2, s2, i));
        }
    }
    lemma_same_word(c1, c2);
    assert forall|j: u32| j < 24 implies bit(s1, j) == bit(s2, j) by {
        lemma_pc_upto_step(s1, j as int);
        lemma_pc_upto_step(s2, j as int);
        if (j as int) < w {
            lemma_slot_exists(c1, 24, j as int);
            let i = choose|i: int| 0 <= i < 24 && #[trigger] bit(c1, i as u32) == 1 && pc_upto(c1, i as u32) == j;
            assert(i != skip);
            assert(x[i] == two_val(c1, s1, i));
            assert(x[i] == two_val(c2, s2, i));
        } else {
            lemma_high_bits_clear(s1, w, j);
            lemma_high_bits_clear(s2, w, j);
        }
    }
    lemma_eq_by_bits(s1, s2);
}

/// Membership in a one- or three-element sequence.
proof fn lemma_seq_contains(a: int, b: int, c: int, i: int)
    ensures
        seq![a].contains(i) <==> i == a,
        seq![a, b, c].contains(i) <==> (i == a || i == b || i == c),
{
    let t1 = seq![a];
    let t3 = seq![a, b, c];
    assert(t1[0] == a);
    assert(t3[0] == a && t3[1] == b && t3[2] == c);
    if t1.contains(i) {
        let j = choose|j: int| 0 <= j < t1.len() && t1[j] == i;
    }
    if t3.contains(i) {
        let j = choose|j: int| 0 <= j < t3.len() && t3[j] == i;
    }
    if i == a {
        assert(t1.contains(i));
        assert(t3.contains(i));
    }
    if i == b {
        assert(t3[1] == i);
        assert(t3.contains(i));
    }
    if i == c {
        assert(t3[2] == i);
        assert(t3.contains(i));
    }
}

/// The odd vector determines its codeword and its marked positions.
proof fn lemma_odd_pt_inj(x: Point, c1: u32, t1: Seq<int>, c2: u32, t2: Seq<int>, a: int)
    requires
        odd_pt(x, c1, t1, a),
        odd_pt(x, c2, t2, a),
        a == 3 || a == 5,
        c1 < 0x100_0000,
        c2 < 0x100_0000,
    ensures
        c1 == c2,
        forall|i: int| 0 <= i < 24 ==> (t1.contains(i) <==> #[trigger] t2.contains(i)),
{
    assert forall|i: int| 0 <= i < 24 implies (bit(c1, i as u32) == 1) == (#[trigger] bit(
        c2,
        i as u32,
    ) == 1) by {
        assert(x[i] == odd_coord(marked(t1, a, 1)(i), bit(c1, i as u32) == 1));
        assert(x[i] == odd_coord(marked(t2, a, 1)(i), bit(c2, i as u32) == 1));
    }
    assert forall|i: int| 0 <= i < 24 implies (t1.contains(i) <==> #[trigger] t2.contains(i)) by {
        assert(x[i] == odd_coord(marked(t1, a, 1)(i), bit(c1, i as u32) == 1));
        assert(x[i] == odd_coord(marked(t2, a, 1)(i), bit(c2, i as u32) == 1));
    }
    lemma_same_word(c1, c2);
}

proof fn lemma_shift8(s: u32)
    requires
        s < 256,
    ensures
        s >> 8u32 == 0,
{
    assert(s >> 8u32 == 0) by (bit_vector)
        requires
            s < 256,
    ;
}

proof fn lemma_shift12(s: u32)
    requires
        s < 4096,
    ensures
        s >> 12u32 == 0,
{
    assert(s >> 12u32 == 0) by (bit_vector)
        requires
            s < 4096,
    ;
}

/// A codeword of the given weight, as stored in the code table.
proof fn lemma_bucket_word(g: Golay, w: int, k: int)
    requires
        g.wf(),
        w == 8 || w == 12,
        0 <= k < g.bucket(w).len(),
    ensures
        is_codeword(g.bucket(w)[k]),
        g.bucket(w)[k] < 0x100_0000,
        pc_upto(g.bucket(w)[k], 24) == w,
{
    g.lemma_wf();
    assert(g.bucket(w).contains(g.bucket(w)[k]));
    lemma_codeword_facts(g.bucket(w)[k]);
}

/// Point `x` is the one emitted for key `k` while walking Shell(2).
pub open spec fn pt2(x: Point, k: (int, int, int, int, int, int), g: Golay) -> bool {
    if k.0 == 0 {
        &&& 0 <= k.1 < g.bucket(8).len()
        &&& 0 <= k.2 < 256
        &&& k.3 == 0 && k.4 == 0 && k.5 == 0
        &&& two_pt(x, g.bucket(8)[k.1], k.2 as u32)
    } else if k.0 == 1 {
        &&& four_pt(x, k.1, k.2, k.3)
        &&& k.4 == 0 && k.5 == 0
    } else {
        &&& k.0 == 2
        &&& 0 <= k.1 < 4096
        &&& 0 <= k.2 < 24
        &&& k.3 == 0 && k.4 == 0 && k.5 == 0
        &&& odd_pt(x, g.words()[k.1], seq![k.2], 3)
    }
}

/// Distinct keys of the Shell(2) walk give distinct points.
proof fn lemma_pt2_inj(x: Point, k1: (int, int, int, int, int, int), k2: (int, int, int, int, int, int), g: Golay)
    requires
        g.wf(),
        pt2(x, k1, g),
        pt2(x, k2, g),
    ensures
        k1 == k2,
{
    g.lemma_wf();
    if k1.0 == 0 && k2.0 == 0 {
        lemma_bucket_word(g, 8, k1.1);
        lemma_bucket_word(g, 8, k2.1);
        lemma_shift8(k1.2 as u32);
        lemma_shift8(k2.2 as u32);
        lemma_two_pt_inj(x, g.bucket(8)[k1.1], k1.2 as u32, g.bucket(8)[k2.1], k2.2 as u32, 8, 24);
        assert(strictly_increasing(g.bucket(8)));
        if k1.1 < k2.1 {
            assert(g.bucket(8)[k1.1] < g.bucket(8)[k2.1]);
        } else if k2.1 < k1.1 {
            assert(g.bucket(8)[k2.1] < g.bucket(8)[k1.1]);
        }
    } else if k1.0 == 1 && k2.0 == 1 {
        assert(x[k1.1] != 0 && x[k1.2] != 0 && x[k2.1] != 0 && x[k2.2] != 0);
        assert(k1.1 == k2.1 && k1.2 == k2.2);
        assert(k1.3 % 2 == k2.3 % 2 && k1.3 / 2 == k2.3 / 2);
    } else if k1.0 == 2 && k2.0 == 2 {
        g.lemma_words_are_codewords(k1.1);
        g.lemma_words_are_codewords(k2.1);
        lemma_codeword_facts(g.words()[k1.1]);
        lemma_codeword_facts(g.words()[k2.1]);
        lemma_odd_pt_inj(x, g.words()[k1.1], seq![k1.2], g.words()[k2.1], seq![k2.2], 3);
        lemma_seq_contains(k1.2, 0, 0, k1.2);
        lemma_seq_contains(k2.2, 0, 0, k1.2);
        g.lemma_words_distinct(k1.1, k2.1);
    } else if k1.0 == 2 || k2.0 == 2 {
        let ko = if k1.0 == 2 { k1 } else { k2 };
        let ke = if k1.0 == 2 { k2 } else { k1 };
        assert(x[0] == odd_coord(marked(seq![ko.2], 3, 1)(0), bit(g.words()[ko.1], 0) == 1));
        if ke.0 == 0 {
            assert(x[0] == two_val(g.bucket(8)[ke.1], ke.2 as u32, 0));
        }
        assert(false);
    } else {
        let kf = if k1.0 == 1 { k1 } else { k2 };
        let kt = if k1.0 == 1 { k2 } else { k1 };
        assert(x[kf.1] == two_val(g.bucket(8)[kt.1], kt.2 as u32, kf.1));
        assert(false);
    }
}

/// The keys the Shell(2) walk emits.
pub open spec fn valid2(k: (int, int, int, int, int, int)) -> bool {
    if k.0 == 0 {
        &&& 0 <= k.1 < 759
        &&& 0 <= k.2 < 256
        &&& k.3 == 0 && k.4 == 0 && k.5 == 0
        &&& pc_upto(k.2 as u32, 8) % 2 == 0
    } else if k.0 == 1 {
        &&& 0 <= k.1 < k.2 < 24
        &&& 0 <= k.3 < 4
        &&& k.4 == 0 && k.5 == 0
    } else {
        &&& k.0 == 2
        &&& 0 <= k.1 < 4096
        &&& 0 <= k.2 < 24
        &&& k.3 == 0 && k.4 == 0 && k.5 == 0
    }
}

/// The minus signs of `x` on the support of `c`, as bits in support order.
pub open spec fn sign_word(x: Point, c: u32, k: nat) -> u32
    decreases k,
{
    if k == 0 {
        0
    } else {
        let y = sign_word(x, c, (k - 1) as nat);
        if bit(c, (k - 1) as u32) == 1 {
            y | (if x[k - 1] < 0 {
                1u32 << (pc_upto(c, (k - 1) as u32) as u32)
            } else {
                0u32
            })
        } else {
            y
        }
    }
}

/// Setting bit `t` (or not) of a value below `2^t`.
proof fn lemma_or_top(y: u32, t: u32, set: bool)
    requires
        t < 24,
        y < (1u32 << t),
    ensures
        (y | (if set { 1u32 << t } else { 0u32 })) < (1u32 << ((t + 1) as u32)),
        bit(y | (if set { 1u32 << t } else { 0u32 }), t) == (if set { 1u32 } else { 0u32 }),
{
    let z = if set { 1u32 << t } else { 0u32 };
    assert((y | z) < (1u32 << ((t + 1) as u32)) && ((y | z) >> t) & 1 == (if set { 1u32 } else {
        0u32
    })) by (bit_vector)
        requires
            t < 24,
            y < (1u32 << t),
            z == (if set { 1u32 << t } else { 0u32 }),
    ;
}

proof fn lemma_sign_word(x: Point, c: u32, k: nat)
    requires
        k <= 24,
    ensures
        sign_word(x, c, k) < (1u32 << (pc_upto(c, k as u32) as u32)),
        forall|i: int|
            0 <= i < k && bit(c, i as u32) == 1 ==> #[trigger] bit(
                sign_word(x, c, k),
                pc_upto(c, i as u32) as u32,
            ) == (if x[i] < 0 {
                1u32
            } else {
                0u32
            }),
    decreases k,
{
    if k == 0 {
        assert(pc_upto(c, 0) == 0);
        assert(0u32 < (1u32 << 0u32)) by (bit_vector);
    } else {
        let km = (k - 1) as nat;
        lemma_sign_word(x, c, km);
        lemma_pc_upto_step(c, km as int);
        assert((km + 1) as u32 == k as u32);
        let t = pc_upto(c, km as u32);
        let y = sign_word(x, c, km);
        if bit(c, km as u32) == 1 {
            assert forall|i: int| 0 <= i < k && bit(c, i as u32) == 1 implies #[trigger] bit(
                sign_word(x, c, k),
                pc_upto(c, i as u32) as u32,
            ) == (if x[i] < 0 {
                1u32
            } else {
                0u32
            }) by {
                if i < km {
                    lemma_pc_upto_step(c, i);
                    lemma_pc_upto_mono(c, i + 1, km as int);
                    assert((i + 1) as u32 == (i as u32 + 1) as u32);
                    lemma_or_bit(y, t as u32, x[km as int] < 0, pc_upto(c, i as u32) as u32);
                } else {
                    lemma_or_top(y, t as u32, x[km as int] < 0);
                }
            }
            lemma_or_top(y, t as u32, x[km as int] < 0);
        } else {
            assert((1u32 << (t as u32)) == (1u32 << (pc_upto(c, k as u32) as u32)));
        }
    }
}

/// The minus signs on the support of a `±2` pattern are the set sign bits
/// (position `skip`, off the support, may hold anything).
proof fn lemma_two_pt_negs(x: Point, c: u32, s: u32, skip: int)
    requires
        forall|i: int| 0 <= i < 24 && i != skip ==> #[trigger] x[i] == two_val(c, s, i),
        0 <= skip < 24 ==> bit(c, skip as u32) == 0,
    ensures
        neg_on(x, c) == pc_upto(s, pc_upto(c, 24) as u32),
{
    let g = |t: int| bit(s, t as u32) as int;
    let h = |q: int| if bit(c, q as u32) == 1 { g(on_slot(c, q)) } else { 0 };
    assert forall|q: int| 0 <= q < 24 implies #[trigger] neg_on_f(x, c)(q) == h(q) by {
        lemma_pc_upto_step(c, q);
        let jj = pc_upto(c, q as u32) as u32;
        assert((s >> jj) & 1 <= 1) by (bit_vector);
        assert(bit(s, jj) <= 1);
        if q != skip {
            assert(x[q] == two_val(c, s, q));
        }
    }
    lemma_psum_ext(neg_on_f(x, c), h, 24);
    lemma_reindex_on(c, g, 24);
    lemma_pc_upto_step(c, 23);
    lemma_psum_bits(s, pc_upto(c, 24) as int);
    lemma_psum_ext(g, |t: int| bit(s, t as u32) as int, pc_upto(c, 24));
}

/// Four distinct positions of a 0/1 count over 24 add up to at most the count.
proof fn lemma_psum_quad(f: spec_fn(int) -> int, i: int, a: int, b: int, c: int)
    requires
        0 <= a < b < c < 24,
        0 <= i < 24,
        i != a && i != b && i != c,
        forall|q: int| 0 <= q < 24 ==> #[trigger] f(q) >= 0,
    ensures
        f(i) + f(a) + f(b) + f(c) <= psum(f, 24),
{
    let g = |q: int| if q == i { 0int } else { f(q) };
    assert forall|q: int| 0 <= q < 24 implies #[trigger] g(q) >= 0 by {}
    lemma_psum_triple(g, a, b, c, 24);
    lemma_psum_update(f, g, 24, i);
}

/// An indicator of two positions sums to 2.
proof fn lemma_psum_two_values(i: int, j: int, n: int)
    requires
        0 <= i < n,
        0 <= j < n,
        i != j,
    ensures
        psum(|q: int| if q == i || q == j { 1int } else { 0int }, n) == 2,
    decreases n,
{
    let f = |q: int| if q == i || q == j { 1int } else { 0int };
    if n - 1 > i && n - 1 > j {
        lemma_psum_two_values(i, j, n - 1);
    } else {
        let o = if n - 1 == i { j } else { i };
        lemma_psum_ext(f, |q: int| if q == o { 1int } else { 0int }, n - 1);
        lemma_psum_single_value(1, o, n - 1);
    }
}

/// A count of at least one is witnessed by a coordinate.
proof fn lemma_hist_witness(x: Point, v: int)
    requires
        0 <= v < 16,
        hist(x)[v] >= 1,
    ensures
        exists|i: int| 0 <= i < 24 && #[trigger] absv(x[i] as int) == v,
{
    if forall|i: int| 0 <= i < 24 ==> #[trigger] absv(x[i] as int) != v {
        lemma_hist_absent(x, v);
    }
}

/// Two coordinates with the same absolute value count twice.
proof fn lemma_hist_two(x: Point, i: int, j: int)
    requires
        0 <= i < 24,
        0 <= j < 24,
        i != j,
        absv(x[i] as int) == absv(x[j] as int),
        absv(x[i] as int) < 16,
    ensures
        hist(x)[absv(x[i] as int)] >= 2,
{
    let v = absv(x[i] as int);
    let f = ind(abs_seq(x), v);
    assert forall|q: int| 0 <= q < 24 implies #[trigger] f(q) >= 0 by {}
    if i < j {
        lemma_psum_pair(f, i, j, 24);
    } else {
        lemma_psum_pair(f, j, i, 24);
    }
}

/// The class of a point of Shell(2), numbered in the order the walk emits
/// the classes: 0 for `(±2⁸)`, 1 for `(±4²)`, 2 for `(±3, ±1²³)`.
pub open spec fn shell2_class(x: Point) -> int {
    if hist(x)[2] == 8 && hist(x)[0] == 16 {
        0
    } else if hist(x)[4] == 2 && hist(x)[0] == 22 {
        1
    } else {
        2
    }
}

/// The class the walk of Shell(2) emits at position `k`: 97 152 points of
/// `(±2⁸)`, then 1 104 of `(±4²)`, then 98 304 of `(±3, ±1²³)`.
pub open spec fn shell2_class_at(k: int) -> int {
    if k < 97_152 {
        0
    } else if k < 98_256 {
        1
    } else {
        2
    }
}

/// Every lattice point of Shell(2) has a key of the walk.
#[verifier::rlimit(60)]
proof fn lemma_shell2_key(x: Point, g: Golay) -> (k: (int, int, int, int, int, int))
    requires
        g.wf(),
        on_shell(x, 2),
    ensures
        valid2(k),
        pt2(x, k, g),
        k.0 == shell2_class(x),
{
    lemma_shell2_shapes(x);
    lemma_coord_small(x);
    lemma_hist_nonneg(x);
    lemma_hist_total(x);
    let h = hist(x);
    let c = golay_word(x);
    g.lemma_wf();
    if h[3] == 1 && h[1] == 23 {
        if par(x) == 0 {
            lemma_even_parse(x);
            assert(false);
        }
        lemma_odd_parse(x);
        lemma_codeword_facts(c);
        lemma_hist_witness(x, 3);
        let p = choose|i: int| 0 <= i < 24 && #[trigger] absv(x[i] as int) == 3;
        assert forall|i: int| 0 <= i < 24 implies #[trigger] x[i] == odd_coord(
            marked(seq![p], 3, 1)(i),
            bit(c, i as u32) == 1,
        ) by {
            lemma_seq_contains(p, 0, 0, i);
            let a = absv(x[i] as int);
            if i != p {
                if a == 3 {
                    lemma_hist_two(x, i, p);
                }
                if a != 1 && a != 3 {
                    lemma_hist_present(x, i);
                }
            }
        }
        let w = pc(c);
        let gg = choose|q: int| 0 <= q < g.bucket(w).len() && g.bucket(w)[q] == c;
        assert(g.bucket(w).contains(c));
        crate::golay::lemma_bucket_start_bound(w);
        let fi = crate::golay::bucket_start(w) + gg;
        assert(g.words()[fi] == c);
        (2int, fi, p, 0int, 0int, 0int)
    } else if h[4] == 2 && h[0] == 22 {
        if par(x) == 1 {
            lemma_odd_parse(x);
            assert(false);
        }
        lemma_even_parse(x);
        lemma_hist_witness(x, 4);
        let i1 = choose|i: int| 0 <= i < 24 && #[trigger] absv(x[i] as int) == 4;
        if forall|i: int| 0 <= i < 24 && i != i1 ==> #[trigger] absv(x[i] as int) != 4 {
            let f = ind(abs_seq(x), 4);
            assert forall|q: int| 0 <= q < 24 implies #[trigger] f(q) == (if q == i1 { 1int } else { 0int }) by {}
            lemma_psum_ext(f, |q: int| if q == i1 { 1int } else { 0int }, 24);
            lemma_psum_single_value(1, i1, 24);
            assert(false);
        }
        let i2 = choose|i: int| 0 <= i < 24 && i != i1 && #[trigger] absv(x[i] as int) == 4;
        let a1 = if i1 < i2 { i1 } else { i2 };
        let a2 = if i1 < i2 { i2 } else { i1 };
        assert forall|i: int| 0 <= i < 24 && i != a1 && i != a2 implies #[trigger] x[i] == 0 by {
            let a = absv(x[i] as int);
            if a == 4 {
                let f = ind(abs_seq(x), 4);
                assert forall|q: int| 0 <= q < 24 implies #[trigger] f(q) >= 0 by {}
                if i < a1 {
                    lemma_psum_triple(f, i, a1, a2, 24);
                } else if i < a2 {
                    lemma_psum_triple(f, a1, i, a2, 24);
                } else {
                    lemma_psum_triple(f, a1, a2, i, 24);
                }
            } else if a != 0 {
                lemma_hist_present(x, i);
            }
        }
        let sg = (if x[a1] < 0 { 1int } else { 0int }) + 2 * (if x[a2] < 0 { 1int } else { 0int });
        (1int, a1, a2, sg, 0int, 0int)
    } else {
        if par(x) == 1 {
            lemma_odd_parse(x);
            assert(false);
        }
        lemma_even_parse(x);
        let m = choose|m: u32| m < 4096 && #[trigger] encode_spec(m) == c;
        lemma_codeword_facts(c);
        assert forall|i: int| 0 <= i < 24 implies #[trigger] absv(x[i] as int) == 0 || absv(x[i] as int) == 2 by {
            let a = absv(x[i] as int);
            if a != 0 && a != 2 {
                lemma_hist_present(x, i);
            }
        }
        assert(pc(c) == 8);
        assert(g.bucket(8).contains(c));
        let o = choose|q: int| 0 <= q < g.bucket(8).len() && g.bucket(8)[q] == c;
        lemma_sign_word(x, c, 24);
        let s = sign_word(x, c, 24);
        assert((1u32 << 8u32) == 256u32) by (bit_vector);
        assert forall|i: int| 0 <= i < 24 implies #[trigger] x[i] == two_val(c, s, i) by {
            lemma_pc_upto_step(c, i);
            let a = absv(x[i] as int);
            assert(a == 0 || a == 2);
            assert((bit(c, i as u32) == 1) == (a % 4 == 2));
            if bit(c, i as u32) == 1 {
                assert(bit(s, pc_upto(c, i as u32) as u32) == (if x[i] < 0 { 1u32 } else { 0u32 }));
            } else {
                assert(bit(c, i as u32) == 0);
                assert(a == 0);
            }
        }
        lemma_two_pt_negs(x, c, s, 24);
        assert(s as int as u32 == s);
        (0int, o, s as int, 0int, 0int, 0int)
    }
}

/// The keys the Shell(3) walk emits.
pub open spec fn valid3(k: (int, int, int, int, int, int), g: Golay) -> bool {
    if k.0 == 0 {
        &&& 0 <= k.1 < 2576
        &&& 0 <= k.2 < 4096
        &&& k.3 == 0 && k.4 == 0 && k.5 == 0
        &&& pc_upto(k.2 as u32, 12) % 2 == 0
    } else if k.0 == 1 {
        &&& 0 <= k.1 < 759
        &&& 0 <= k.2 < 24
        &&& bit(g.bucket(8)[k.1], k.2 as u32) == 0
        &&& (k.3 == 0 || k.3 == 1)
        &&& 0 <= k.4 < 256
        &&& k.5 == 0
        &&& pc_upto(k.4 as u32, 8) % 2 == 1
    } else {
        &&& k.0 == 2 + k.2
        &&& 0 <= k.1 < 4096
        &&& ((k.2 == 0 && 0 <= k.3 < 24 && k.4 == 0 && k.5 == 0) || (k.2 == 1 && 0 <= k.3 < k.4
            < k.5 < 24))
    }
}

/// The class of a point of Shell(3), numbered in the order the walk emits
/// the classes: 0 for `(±2¹²)`, 1 for `(±4, ±2⁸)`, 2 for `(±5, ±1²³)`, 3 for
/// `(±3³, ±1²¹)`.
pub open spec fn shell3_class(x: Point) -> int {
    if hist(x)[2] == 12 && hist(x)[0] == 12 {
        0
    } else if hist(x)[4] == 1 && hist(x)[2] == 8 && hist(x)[0] == 15 {
        1
    } else if hist(x)[5] == 1 && hist(x)[1] == 23 {
        2
    } else {
        3
    }
}

/// The class the walk of Shell(3) emits at position `k`: 5 275 648 points of
/// `(±2¹²)`, then 3 108 864 of `(±4, ±2⁸)`, then 98 304 of `(±5, ±1²³)`, then
/// 8 290 304 of `(±3³, ±1²¹)`.
pub open spec fn shell3_class_at(k: int) -> int {
    if k < 5_275_648 {
        0
    } else if k < 8_384_512 {
        1
    } else if k < 8_482_816 {
        2
    } else {
        3
    }
}

/// Every lattice point of Shell(3) has a key of the walk.
#[verifier::rlimit(80)]
proof fn lemma_shell3_key(x: Point, g: Golay) -> (k: (int, int, int, int, int, int))
    requires
        g.wf(),
        on_shell(x, 3),
    ensures
        valid3(k, g),
        pt3(x, k, g),
        k.0 == shell3_class(x),
{
    lemma_shell3_shapes(x);
    lemma_coord_small(x);
    lemma_hist_nonneg(x);
    lemma_hist_total(x);
    let h = hist(x);
    let c = golay_word(x);
    g.lemma_wf();
    if h[5] == 1 && h[1] == 23 {
        if par(x) == 0 {
            lemma_even_parse(x);
            assert(false);
        }
        lemma_odd_parse(x);
        lemma_codeword_facts(c);
        lemma_hist_witness(x, 5);
        let p = choose|i: int| 0 <= i < 24 && #[trigger] absv(x[i] as int) == 5;
        assert forall|i: int| 0 <= i < 24 implies #[trigger] x[i] == odd_coord(
            marked(seq![p], 5, 1)(i),
            bit(c, i as u32) == 1,
        ) by {
            lemma_seq_contains(p, 0, 0, i);
            let a = absv(x[i] as int);
            if i != p {
                if a == 5 {
                    lemma_hist_two(x, i, p);
                }
                if a != 1 && a != 5 {
                    lemma_hist_present(x, i);
                }
            }
        }
        let w = pc(c);
        let gg = choose|q: int| 0 <= q < g.bucket(w).len() && g.bucket(w)[q] == c;
        assert(g.bucket(w).contains(c));
        crate::golay::lemma_bucket_start_bound(w);
        let fi = crate::golay::bucket_start(w) + gg;
        assert(g.words()[fi] == c);
        (2int, fi, 0int, p, 0int, 0int)
    } else if h[3] == 3 && h[1] == 21 {
        if par(x) == 0 {
            lemma_even_parse(x);
            assert(false);
        }
        lemma_odd_parse(x);
        lemma_codeword_facts(c);
        lemma_hist_witness(x, 3);
        let f = ind(abs_seq(x), 3);
        assert forall|q: int| 0 <= q < 24 implies #[trigger] f(q) >= 0 by {}
        let i1 = choose|i: int| 0 <= i < 24 && #[trigger] absv(x[i] as int) == 3;
        if forall|i: int| 0 <= i < 24 && i != i1 ==> #[trigger] absv(x[i] as int) != 3 {
            assert forall|q: int| 0 <= q < 24 implies #[trigger] f(q) == (if q == i1 { 1int } else { 0int }) by {}
            lemma_psum_ext(f, |q: int| if q == i1 { 1int } else { 0int }, 24);
            lemma_psum_single_value(1, i1, 24);
            assert(false);
        }
        let i2 = choose|i: int| 0 <= i < 24 && i != i1 && #[trigger] absv(x[i] as int) == 3;
        if forall|i: int| 0 <= i < 24 && i != i1 && i != i2 ==> #[trigger] absv(x[i] as int) != 3 {
            assert forall|q: int| 0 <= q < 24 implies #[trigger] f(q) == (if q == i1 || q == i2 { 1int } else { 0int }) by {}
            lemma_psum_ext(f, |q: int| if q == i1 || q == i2 { 1int } else { 0int }, 24);
            lemma_psum_two_values(i1, i2, 24);
            assert(false);
        }
        let i3 = choose|i: int| 0 <= i < 24 && i != i1 && i != i2 && #[trigger] absv(x[i] as int) == 3;
        let a = if i1 < i2 && i1 < i3 { i1 } else if i2 < i3 { i2 } else { i3 };
        let cc = if i1 > i2 && i1 > i3 { i1 } else if i2 > i3 { i2 } else { i3 };
        let b = i1 + i2 + i3 - a - cc;
        assert(a < b < cc);
        assert forall|i: int| 0 <= i < 24 implies #[trigger] x[i] == odd_coord(
            marked(seq![a, b, cc], 3, 1)(i),
            bit(c, i as u32) == 1,
        ) by {
            lemma_seq_contains(a, b, cc, i);
            let v = absv(x[i] as int);
            if i != a && i != b && i != cc {
                if v == 3 {
                    lemma_psum_quad(f, i, a, b, cc);
                }
                if v != 1 && v != 3 {
                    lemma_hist_present(x, i);
                }
            }
        }
        let w = pc(c);
        let gg = choose|q: int| 0 <= q < g.bucket(w).len() && g.bucket(w)[q] == c;
        assert(g.bucket(w).contains(c));
        crate::golay::lemma_bucket_start_bound(w);
        let fi = crate::golay::bucket_start(w) + gg;
        assert(g.words()[fi] == c);
        (3int, fi, 1int, a, b, cc)
    } else if h[2] == 12 && h[0] == 12 {
        if par(x) == 1 {
            lemma_odd_parse(x);
            assert(false);
        }
        lemma_even_parse(x);
        lemma_codeword_facts(c);
        assert forall|i: int| 0 <= i < 24 implies #[trigger] absv(x[i] as int) == 0 || absv(x[i] as int) == 2 by {
            let a = absv(x[i] as int);
            if a != 0 && a != 2 {
                lemma_hist_present(x, i);
            }
        }
        assert(pc(c) == 12);
        assert(g.bucket(12).contains(c));
        let o = choose|q: int| 0 <= q < g.bucket(12).len() && g.bucket(12)[q] == c;
        lemma_sign_word(x, c, 24);
        let s = sign_word(x, c, 24);
        assert((1u32 << 12u32) == 4096u32) by (bit_vector);
        assert forall|i: int| 0 <= i < 24 implies #[trigger] x[i] == two_val(c, s, i) by {
            lemma_pc_upto_step(c, i);
            let a = absv(x[i] as int);
            assert(a == 0 || a == 2);
            assert((bit(c, i as u32) == 1) == (a % 4 == 2));
            if bit(c, i as u32) == 1 {
                assert(bit(s, pc_upto(c, i as u32) as u32) == (if x[i] < 0 { 1u32 } else { 0u32 }));
            } else {
                assert(bit(c, i as u32) == 0);
                assert(a == 0);
            }
        }
        lemma_two_pt_negs(x, c, s, 24);
        assert(s as int as u32 == s);
        (0int, o, s as int, 0int, 0int, 0int)
    } else {
        assert(h[4] == 1 && h[2] == 8 && h[0] == 15);
        if par(x) == 1 {
            lemma_odd_parse(x);
            assert(false);
        }
        lemma_even_parse(x);
        lemma_codeword_facts(c);
        lemma_hist_witness(x, 4);
        let p4 = choose|i: int| 0 <= i < 24 && #[trigger] absv(x[i] as int) == 4;
        assert forall|i: int| 0 <= i < 24 && i != p4 implies #[trigger] absv(x[i] as int) == 0 || absv(x[i] as int) == 2 by {
            let a = absv(x[i] as int);
            if a == 4 {
                lemma_hist_two(x, i, p4);
            }
            if a != 0 && a != 2 && a != 4 {
                lemma_hist_present(x, i);
            }
        }
        assert(pc(c) == 8);
        assert(g.bucket(8).contains(c));
        let o = choose|q: int| 0 <= q < g.bucket(8).len() && g.bucket(8)[q] == c;
        lemma_sign_word(x, c, 24);
        let s = sign_word(x, c, 24);
        assert((1u32 << 8u32) == 256u32) by (bit_vector);
        assert(bit(c, p4 as u32) == 0);
        assert forall|i: int| 0 <= i < 24 && i != p4 implies #[trigger] x[i] == two_val(c, s, i) by {
            lemma_pc_upto_step(c, i);
            let a = absv(x[i] as int);
            assert(a == 0 || a == 2);
            assert((bit(c, i as u32) == 1) == (a % 4 == 2));
            if bit(c, i as u32) == 1 {
                assert(bit(s, pc_upto(c, i as u32) as u32) == (if x[i] < 0 { 1u32 } else { 0u32 }));
            } else {
                assert(bit(c, i as u32) == 0);
                assert(a == 0);
            }
        }
        lemma_two_pt_negs(x, c, s, p4);
        assert(s as int as u32 == s);
        let v: int = if x[p4] < 0 { 1 } else { 0 };
        (1int, o, p4, v, s as int, 0int)
    }
}

/// A key of the Shell(3) walk fixes its point.
proof fn lemma_pt3_det(x: Point, y: Point, k: (int, int, int, int, int, int), g: Golay)
    requires
        pt3(x, k, g),
        pt3(y, k, g),
    ensures
        x == y,
{
    assert forall|i: int| 0 <= i < 24 implies x[i] == y[i] by {
        if k.0 == 0 {
            assert(x[i] == two_val(g.bucket(12)[k.1], k.2 as u32, i));
            assert(y[i] == two_val(g.bucket(12)[k.1], k.2 as u32, i));
        } else if k.0 == 1 {
            if i != k.2 {
                assert(x[i] == two_val(g.bucket(8)[k.1], k.4 as u32, i));
                assert(y[i] == two_val(g.bucket(8)[k.1], k.4 as u32, i));
            }
        } else if k.2 == 0 {
            assert(x[i] == odd_coord(marked(seq![k.3], 5, 1)(i), bit(g.words()[k.1], i as u32) == 1));
            assert(y[i] == odd_coord(marked(seq![k.3], 5, 1)(i), bit(g.words()[k.1], i as u32) == 1));
        } else {
            assert(x[i] == odd_coord(marked(seq![k.3, k.4, k.5], 3, 1)(i), bit(g.words()[k.1], i as u32) == 1));
            assert(y[i] == odd_coord(marked(seq![k.3, k.4, k.5], 3, 1)(i), bit(g.words()[k.1], i as u32) == 1));
        }
    }
    assert(x =~= y);
}

/// A key of the Shell(2) walk fixes its point.
proof fn lemma_pt2_det(x: Point, y: Point, k: (int, int, int, int, int, int), g: Golay)
    requires
        pt2(x, k, g),
        pt2(y, k, g),
    ensures
        x == y,
{
    assert forall|i: int| 0 <= i < 24 implies x[i] == y[i] by {
        if k.0 == 0 {
            assert(x[i] == two_val(g.bucket(8)[k.1], k.2 as u32, i));
            assert(y[i] == two_val(g.bucket(8)[k.1], k.2 as u32, i));
        } else if k.0 == 2 {
            assert(x[i] == odd_coord(marked(seq![k.2], 3, 1)(i), bit(g.words()[k.1], i as u32) == 1));
            assert(y[i] == odd_coord(marked(seq![k.2], 3, 1)(i), bit(g.words()[k.1], i as u32) == 1));
        }
    }
    assert(x =~= y);
}

/// Point `x` is the one emitted for key `k` while walking Shell(3).
pub open spec fn pt3(x: Point, k: (int, int, int, int, int, int), g: Golay) -> bool {
    if k.0 == 0 {
        &&& 0 <= k.1 < g.bucket(12).len()
        &&& 0 <= k.2 < 4096
        &&& k.3 == 0 && k.4 == 0 && k.5 == 0
        &&& two_pt(x, g.bucket(12)[k.1], k.2 as u32)
    } else if k.0 == 1 {
        &&& 0 <= k.1 < g.bucket(8).len()
        &&& 0 <= k.2 < 24
        &&& bit(g.bucket(8)[k.1], k.2 as u32) == 0
        &&& (k.3 == 0 || k.3 == 1)
        &&& 0 <= k.4 < 256
        &&& k.5 == 0
        &&& two_four_pt(x, g.bucket(8)[k.1], k.4 as u32, k.2, if k.3 == 0 { 4 } else { -4 })
    } else {
        &&& k.0 == 2 + k.2
        &&& 0 <= k.1 < 4096
        &&& if k.2 == 0 {
            &&& 0 <= k.3 < 24
            &&& k.4 == 0 && k.5 == 0
            &&& odd_pt(x, g.words()[k.1], seq![k.3], 5)
        } else {
            &&& k.2 == 1
            &&& 0 <= k.3 < k.4 < k.5 < 24
            &&& odd_pt(x, g.words()[k.1], seq![k.3, k.4, k.5], 3)
        }
    }
}

/// Distinct keys of the Shell(3) walk give distinct points.
#[verifier::rlimit(40)]
proof fn lemma_pt3_inj(x: Point, k1: (int, int, int, int, int, int), k2: (int, int, int, int, int, int), g: Golay)
    requires
        g.wf(),
        pt3(x, k1, g),
        pt3(x, k2, g),
    ensures
        k1 == k2,
{
    g.lemma_wf();
    if k1.0 == 0 && k2.0 == 0 {
        lemma_bucket_word(g, 12, k1.1);
        lemma_bucket_word(g, 12, k2.1);
        lemma_shift12(k1.2 as u32);
        lemma_shift12(k2.2 as u32);
        lemma_two_pt_inj(x, g.bucket(12)[k1.1], k1.2 as u32, g.bucket(12)[k2.1], k2.2 as u32, 12, 24);
        assert(strictly_increasing(g.bucket(12)));
        if k1.1 < k2.1 {
            assert(g.bucket(12)[k1.1] < g.bucket(12)[k2.1]);
        } else if k2.1 < k1.1 {
            assert(g.bucket(12)[k2.1] < g.bucket(12)[k1.1]);
        }
    } else if k1.0 == 1 && k2.0 == 1 {
        let c1 = g.bucket(8)[k1.1];
        let c2 = g.bucket(8)[k2.1];
        if k1.2 != k2.2 {
            assert(x[k1.2] == two_val(c2, k2.4 as u32, k1.2));
            assert(false);
        }
        lemma_bucket_word(g, 8, k1.1);
        lemma_bucket_word(g, 8, k2.1);
        lemma_shift8(k1.4 as u32);
        lemma_shift8(k2.4 as u32);
        lemma_two_pt_inj(x, c1, k1.4 as u32, c2, k2.4 as u32, 8, k1.2);
        assert(strictly_increasing(g.bucket(8)));
        if k1.1 < k2.1 {
            assert(g.bucket(8)[k1.1] < g.bucket(8)[k2.1]);
        } else if k2.1 < k1.1 {
            assert(g.bucket(8)[k2.1] < g.bucket(8)[k1.1]);
        }
    } else if k1.0 >= 2 && k2.0 >= 2 {
        g.lemma_words_are_codewords(k1.1);
        g.lemma_words_are_codewords(k2.1);
        lemma_codeword_facts(g.words()[k1.1]);
        lemma_codeword_facts(g.words()[k2.1]);
        if k1.2 == 0 && k2.2 == 0 {
            lemma_odd_pt_inj(x, g.words()[k1.1], seq![k1.3], g.words()[k2.1], seq![k2.3], 5);
            lemma_seq_contains(k1.3, 0, 0, k1.3);
            lemma_seq_contains(k2.3, 0, 0, k1.3);
        } else if k1.2 == 1 && k2.2 == 1 {
            let t1 = seq![k1.3, k1.4, k1.5];
            let t2 = seq![k2.3, k2.4, k2.5];
            lemma_odd_pt_inj(x, g.words()[k1.1], t1, g.words()[k2.1], t2, 3);
            lemma_seq_contains(k1.3, k1.4, k1.5, k1.3);
            lemma_seq_contains(k2.3, k2.4, k2.5, k1.3);
            assert(t1.contains(k1.3) <==> t2.contains(k1.3));
            lemma_seq_contains(k1.3, k1.4, k1.5, k1.4);
            lemma_seq_contains(k2.3, k2.4, k2.5, k1.4);
            assert(t1.contains(k1.4) <==> t2.contains(k1.4));
            lemma_seq_contains(k1.3, k1.4, k1.5, k1.5);
            lemma_seq_contains(k2.3, k2.4, k2.5, k1.5);
            assert(t1.contains(k1.5) <==> t2.contains(k1.5));
            lemma_seq_contains(k1.3, k1.4, k1.5, k2.3);
            lemma_seq_contains(k2.3, k2.4, k2.5, k2.3);
            assert(t1.contains(k2.3) <==> t2.contains(k2.3));
            lemma_seq_contains(k1.3, k1.4, k1.5, k2.4);
            lemma_seq_contains(k2.3, k2.4, k2.5, k2.4);
            assert(t1.contains(k2.4) <==> t2.contains(k2.4));
            lemma_seq_contains(k1.3, k1.4, k1.5, k2.5);
            lemma_seq_contains(k2.3, k2.4, k2.5, k2.5);
            assert(t1.contains(k2.5) <==> t2.contains(k2.5));
            assert(k1.3 == k2.3 || k1.3 == k2.4 || k1.3 == k2.5);
            assert(k2.3 == k1.3 || k2.3 == k1.4 || k2.3 == k1.5);
            assert(k1.5 == k2.3 || k1.5 == k2.4 || k1.5 == k2.5);
            assert(k2.5 == k1.3 || k2.5 == k1.4 || k2.5 == k1.5);
            assert(k1.4 == k2.3 || k1.4 == k2.4 || k1.4 == k2.5);
        } else {
            let ka = if k1.2 == 0 { k1 } else { k2 };
            let kb = if k1.2 == 0 { k2 } else { k1 };
            let p = ka.3;
            assert(x[p] == odd_coord(marked(seq![p], 5, 1)(p), bit(g.words()[ka.1], p as u32) == 1));
            lemma_seq_contains(p, 0, 0, p);
            assert(x[p] == odd_coord(marked(seq![kb.3, kb.4, kb.5], 3, 1)(p), bit(
                g.words()[kb.1],
                p as u32,
            ) == 1));
            assert(false);
        }
        g.lemma_words_distinct(k1.1, k2.1);
    } else if k1.0 >= 2 || k2.0 >= 2 {
        let ko = if k1.0 >= 2 { k1 } else { k2 };
        let ke = if k1.0 >= 2 { k2 } else { k1 };
        if ko.2 == 0 {
            assert(x[0] == odd_coord(marked(seq![ko.3], 5, 1)(0), bit(g.words()[ko.1], 0) == 1));
        } else {
            assert(x[0] == odd_coord(marked(seq![ko.3, ko.4, ko.5], 3, 1)(0), bit(g.words()[ko.1], 0)
                == 1));
        }
        if ke.0 == 0 {
            assert(x[0] == two_val(g.bucket(12)[ke.1], ke.2 as u32, 0));
        } else if ke.2 != 0 {
            assert(x[0] == two_val(g.bucket(8)[ke.1], ke.4 as u32, 0));
        }
        assert(false);
    } else {
        let kf = if k1.0 == 1 { k1 } else { k2 };
        let kt = if k1.0 == 1 { k2 } else { k1 };
        assert(x[kf.2] == two_val(g.bucket(12)[kt.1], kt.2 as u32, kf.2));
        assert(false);
    }
}

/// ±2 on the support of `c` (signs from the low bits of `s`, in position
/// order), zero elsewhere; and the number of minus signs.
fn two_on_support(c: u32, s: u32) -> (res: (Point, u32))
    ensures
        forall|i: int|
            0 <= i < 24 ==> (bit(c, i as u32) == 1 ==> (#[trigger] res.0[i] == 2 || res.0[i] == -2)) && (
            bit(c, i as u32) == 0 ==> res.0[i] == 0),
        res.1 == neg_on(res.0, c),
        res.1 == pc_upto(s, pc_upto(c, 24) as u32),
        two_pt(res.0, c, s),
{
    let mut x: Point = [0i32; 24];
    let mut i: usize = 0;
    let mut j: u32 = 0;
    while i < 24
        invariant
            i <= 24,
            j <= i,
            j == pc_upto(c, i as u32),
            forall|k: int|
                0 <= k < i ==> (bit(c, k as u32) == 1 ==> (#[trigger] x[k] == 2 || x[k] == -2)) && (bit(
                    c,
                    k as u32,
                ) == 0 ==> x[k] == 0),
            forall|k: int|
                0 <= k < i ==> (bit(c, k as u32) == 1 ==> ((#[trigger] x[k] < 0) == (bit(
                    s,
                    pc_upto(c, k as u32) as u32,
                ) == 1))),
            forall|k: int| i <= k < 24 ==> #[trigger] x[k] == 0,
        decreases 24 - i,
    {
        proof {
            lemma_pc_upto_step(c, i as int);
            assert((i + 1) as u32 == (i as u32 + 1) as u32);
        }
        if (c >> (i as u32)) & 1 == 1 {
            x[i] = if (s >> j) & 1 == 1 {
                -2
            } else {
                2
            };
            j = j + 1;
        }
        i = i + 1;
    }
    assert forall|q: int| 0 <= q < 24 implies #[trigger] x[q] == two_val(c, s, q) by {
        lemma_pc_upto_step(c, q);
    }
    let mut n: u32 = 0;
    let mut k: usize = 0;
    while k < 24
        invariant
            k <= 24,
            n <= k,
            n == psum(neg_on_f(x, c), k as int),
        decreases 24 - k,
    {
        if (c >> (k as u32)) & 1 == 1 && x[k] < 0 {
            n = n + 1;
        }
        k = k + 1;
    }
    proof {
        let g = |t: int| bit(s, t as u32) as int;
        let h = |q: int| if bit(c, q as u32) == 1 { g(on_slot(c, q)) } else { 0 };
        assert forall|q: int| 0 <= q < 24 implies #[trigger] neg_on_f(x, c)(q) == h(q) by {
            lemma_pc_upto_step(c, q);
            let jj = pc_upto(c, q as u32) as u32;
            assert((s >> jj) & 1 <= 1) by (bit_vector);
            assert(bit(s, jj) <= 1);
        }
        lemma_psum_ext(neg_on_f(x, c), h, 24);
        lemma_reindex_on(c, g, 24);
        lemma_pc_upto_step(c, 23);
        lemma_psum_bits(s, pc_upto(c, 24) as int);
        assert(pc_upto(c, 24) as u32 as int == pc_upto(c, 24));
        lemma_psum_ext(g, |t: int| bit(s, t as u32) as int, pc_upto(c, 24));
    }
    (x, n)
}

/// The number of `s < k` whose `w` low bits have parity `par`.
pub open spec fn parity_count(w: u32, k: int, par: int) -> int
    decreases k,
{
    if k <= 0 {
        0
    } else {
        parity_count(w, k - 1, par) + if pc_upto((k - 1) as u32, w) % 2 == par {
            1int
        } else {
            0int
        }
    }
}

/// `2t + 1` has one more low bit set than `2t`.
proof fn lemma_pc_upto_succ(t: u32, w: u32)
    requires
        1 <= w <= 32,
        t < 0x8000_0000,
    ensures
        pc_upto((2 * t + 1) as u32, w) == pc_upto((2 * t) as u32, w) + 1,
    decreases w,
{
    let a = (2 * t) as u32;
    let b = (2 * t + 1) as u32;
    let k = (w - 1) as u32;
    if w == 1 {
        assert(bit(b, 0) == 1 && bit(a, 0) == 0) by (bit_vector)
            requires
                t < 0x8000_0000,
                a == (2 * t) as u32,
                b == (2 * t + 1) as u32,
        ;
        assert(pc_upto(b, 0) == 0 && pc_upto(a, 0) == 0);
    } else {
        lemma_pc_upto_succ(t, k);
        assert(bit(b, k) == bit(a, k)) by (bit_vector)
            requires
                t < 0x8000_0000,
                a == (2 * t) as u32,
                b == (2 * t + 1) as u32,
                1 <= k < 32,
        ;
    }
}

/// Among `0 .. 2t`, half the patterns have even parity and half odd.
proof fn lemma_parity_count(w: u32, t: int)
    requires
        1 <= w <= 32,
        0 <= t <= 0x4000_0000,
    ensures
        parity_count(w, 2 * t, 0) == t,
        parity_count(w, 2 * t, 1) == t,
    decreases t,
{
    if t > 0 {
        lemma_parity_count(w, t - 1);
        let tt = (t - 1) as u32;
        lemma_pc_upto_succ(tt, w);
        assert(((2 * t - 2) as u32) == (2 * tt) as u32);
        assert(((2 * t - 1) as u32) == (2 * tt + 1) as u32);
        assert(pc_upto((2 * tt) as u32, w) >= 0) by {
            lemma_pc_upto_nonneg((2 * tt) as u32, w);
        }
        let a = pc_upto((2 * tt) as u32, w);
        let b = pc_upto((2 * tt + 1) as u32, w);
        assert(b == a + 1);
        assert(parity_count(w, 2 * t - 1, 0) == parity_count(w, 2 * t - 2, 0) + if a % 2 == 0 {
            1int
        } else {
            0int
        });
        assert(parity_count(w, 2 * t, 0) == parity_count(w, 2 * t - 1, 0) + if b % 2 == 0 {
            1int
        } else {
            0int
        });
        assert(parity_count(w, 2 * t - 1, 1) == parity_count(w, 2 * t - 2, 1) + if a % 2 == 1 {
            1int
        } else {
            0int
        });
        assert(parity_count(w, 2 * t, 1) == parity_count(w, 2 * t - 1, 1) + if b % 2 == 1 {
            1int
        } else {
            0int
        });
    }
}

proof fn lemma_pc_upto_nonneg(x: u32, k: u32)
    ensures
        pc_upto(x, k) >= 0,
    decreases k,
{
    if k > 0 {
        lemma_pc_upto_nonneg(x, (k - 1) as u32);
    }
}


/// `p` is a lattice point of norm `16·m`.
pub open spec fn on_shell(p: Point, m: int) -> bool {
    is_member(p) && norm(p) == 16 * m
}

/// The number of pairs `a < b < 24` with `a < i`.
pub open spec fn pairs_before(i: int) -> int
    decreases i,
{
    if i <= 0 {
        0
    } else {
        pairs_before(i - 1) + (24 - i)
    }
}

/// Every point of Shell(2), class by class; the trace lists the points
/// handed to `f`, in order.
fn shell2<V: ShellVisitor>(g: &Golay, vis: &mut V) -> (trace: Ghost<Seq<Point>>)
    requires
        g.wf(),
        old(vis).ready(),
    ensures
        final(vis).seen() == old(vis).seen() + trace@,
        trace@.len() == 196_560,
        forall|k: int| 0 <= k < trace@.len() ==> on_shell(#[trigger] trace@[k], 2),
        trace@.no_duplicates(),
        forall|p: Point| on_shell(p, 2) ==> trace@.contains(p),
        forall|k: int|
            0 <= k < trace@.len() ==> shell2_class(#[trigger] trace@[k]) == shell2_class_at(k),
{
    let ghost s0 = vis.seen();
    let ghost mut tr: Seq<Point> = Seq::empty();
    let ghost mut keys: Seq<(int, int, int, int, int, int)> = Seq::empty();
    // (±2⁸): octad support, even number of minus signs.
    let octads = g.of_weight(8);
    let mut o: usize = 0;
    while o < octads.len()
        invariant
            g.wf(),
            keys.len() == tr.len(),
            forall|k: int| 0 <= k < tr.len() ==> (#[trigger] keys[k]).0 == 0,
            forall|k: int| 0 <= k < tr.len() ==> pt2(#[trigger] tr[k], keys[k], *g),
            forall|k: int| 0 <= k < tr.len() ==> key_lt(#[trigger] keys[k], (0int, o as int, 0int, 0int, 0int, 0int)),
            forall|a: int, b: int| 0 <= a < b < tr.len() ==> #[trigger] tr[a] != #[trigger] tr[b],
            octads@ == g.bucket(8),
            forall|key: (int, int, int, int, int, int)| #[trigger] valid2(key) && key_lt(key, (0int, o as int, 0int, 0int, 0int, 0int)) ==> keys.contains(key),
            vis.seen() == s0 + tr,
            vis.ready(),
            forall|x: u32| octads@.contains(x) <==> (is_codeword(x) && pc(x) == 8),
            octads@.len() == 759,
            o <= octads.len(),
            tr.len() == 128 * o,
            forall|k: int| 0 <= k < tr.len() ==> on_shell(#[trigger] tr[k], 2),
        decreases octads.len() - o,
    {
        let oct = octads[o];
        proof {
            assert(octads@.contains(oct));
            lemma_codeword_facts(oct);
        }
        let mut sgn: u32 = 0;
        while sgn < 256
            invariant
                g.wf(),
                keys.len() == tr.len(),
                forall|k: int| 0 <= k < tr.len() ==> (#[trigger] keys[k]).0 == 0,
                forall|k: int| 0 <= k < tr.len() ==> pt2(#[trigger] tr[k], keys[k], *g),
                forall|k: int| 0 <= k < tr.len() ==> key_lt(#[trigger] keys[k], (0int, o as int, sgn as int, 0int, 0int, 0int)),
                forall|a: int, b: int| 0 <= a < b < tr.len() ==> #[trigger] tr[a] != #[trigger] tr[b],
                octads@ == g.bucket(8),
                o < octads.len(),
                oct == octads@[o as int],
                forall|key: (int, int, int, int, int, int)| #[trigger] valid2(key) && key_lt(key, (0int, o as int, sgn as int, 0int, 0int, 0int)) ==> keys.contains(key),
                vis.seen() == s0 + tr,
                vis.ready(),
                is_codeword(oct),
                pc(oct) == 8,
                pc_upto(oct, 24) == 8,
                sgn <= 256,
                tr.len() == 128 * o + parity_count(8, sgn as int, 0),
                forall|k: int| 0 <= k < tr.len() ==> on_shell(#[trigger] tr[k], 2),
            decreases 256 - sgn,
        {
            let ghost keys0 = keys;
            let (x, n) = two_on_support(oct, sgn);
            if n % 2 == 0 {
                proof {
                    lemma_two_member(x, oct, n as int, 0, 24);
                }
                vis.visit(&x);
                proof {
                    assert(s0 + tr.push(x) =~= (s0 + tr).push(x));
                }
                proof {
                    assert(pt2(x, (0int, o as int, sgn as int, 0int, 0int, 0int), *g));
                    assert forall|k: int| 0 <= k < tr.len() implies #[trigger] tr[k] != x by {
                        if tr[k] == x {
                            lemma_pt2_inj(x, keys[k], (0int, o as int, sgn as int, 0int, 0int, 0int), *g);
                        }
                    }
                    tr = tr.push(x);
                    keys = keys.push((0int, o as int, sgn as int, 0int, 0int, 0int));
                }
            }
            sgn = sgn + 1;
            proof {
                assert forall|key: (int, int, int, int, int, int)| #[trigger] valid2(key) && key_lt(key, (0int, o as int, sgn as int, 0int, 0int, 0int)) implies keys.contains(key) by {
                    if key_lt(key, (0int, o as int, (sgn - 1) as int, 0int, 0int, 0int)) {
                        assert(keys0.contains(key));
                        let j = choose|j: int| 0 <= j < keys0.len() && keys0[j] == key;
                        assert(keys[j] == key);
                    } else {
                        assert(key == (0int, o as int, (sgn - 1) as int, 0int, 0int, 0int));
                        assert(pc_upto((sgn - 1) as int as u32, 8) % 2 == 0 && keys.len() == keys0.len() + 1 && keys == keys0.push(key));
                        assert(keys[keys.len() - 1] == key);
                    }
                }
            }
        }
        proof {
            lemma_parity_count(8, 128);
        }
        o = o + 1;
    }
    // (±4²): every placement and sign.
    let mut i1: usize = 0;
    while i1 < 24
        invariant
            g.wf(),
            keys.len() == tr.len(),
            97_152 <= tr.len(),
            forall|k: int| 0 <= k < 97_152 ==> (#[trigger] keys[k]).0 == 0,
            forall|k: int| 97_152 <= k < tr.len() ==> (#[trigger] keys[k]).0 == 1,
            forall|k: int| 0 <= k < tr.len() ==> pt2(#[trigger] tr[k], keys[k], *g),
            forall|k: int| 0 <= k < tr.len() ==> key_lt(#[trigger] keys[k], (1int, i1 as int, 0int, 0int, 0int, 0int)),
            forall|a: int, b: int| 0 <= a < b < tr.len() ==> #[trigger] tr[a] != #[trigger] tr[b],
            forall|key: (int, int, int, int, int, int)| #[trigger] valid2(key) && key_lt(key, (1int, i1 as int, 0int, 0int, 0int, 0int)) ==> keys.contains(key),
            vis.seen() == s0 + tr,
            vis.ready(),
            i1 <= 24,
            tr.len() == 97_152 + 4 * pairs_before(i1 as int),
            forall|k: int| 0 <= k < tr.len() ==> on_shell(#[trigger] tr[k], 2),
        decreases 24 - i1,
    {
        let mut i2: usize = i1 + 1;
        while i2 < 24
            invariant
                g.wf(),
                keys.len() == tr.len(),
                97_152 <= tr.len(),
                forall|k: int| 0 <= k < 97_152 ==> (#[trigger] keys[k]).0 == 0,
                forall|k: int| 97_152 <= k < tr.len() ==> (#[trigger] keys[k]).0 == 1,
                forall|k: int| 0 <= k < tr.len() ==> pt2(#[trigger] tr[k], keys[k], *g),
                forall|k: int| 0 <= k < tr.len() ==> key_lt(#[trigger] keys[k], (1int, i1 as int, i2 as int, 0int, 0int, 0int)),
                forall|a: int, b: int| 0 <= a < b < tr.len() ==> #[trigger] tr[a] != #[trigger] tr[b],
                forall|key: (int, int, int, int, int, int)| #[trigger] valid2(key) && key_lt(key, (1int, i1 as int, i2 as int, 0int, 0int, 0int)) ==> keys.contains(key),
                vis.seen() == s0 + tr,
                vis.ready(),
                i1 < 24,
                i1 < i2 <= 24,
                tr.len() == 97_152 + 4 * pairs_before(i1 as int) + 4 * (i2 - i1 - 1),
                forall|k: int| 0 <= k < tr.len() ==> on_shell(#[trigger] tr[k], 2),
            decreases 24 - i2,
        {
            let mut sg: u32 = 0;
            while sg < 4
                invariant
                    g.wf(),
                    keys.len() == tr.len(),
                    97_152 <= tr.len(),
                    forall|k: int| 0 <= k < 97_152 ==> (#[trigger] keys[k]).0 == 0,
                    forall|k: int| 97_152 <= k < tr.len() ==> (#[trigger] keys[k]).0 == 1,
                    forall|k: int| 0 <= k < tr.len() ==> pt2(#[trigger] tr[k], keys[k], *g),
                    forall|k: int| 0 <= k < tr.len() ==> key_lt(#[trigger] keys[k], (1int, i1 as int, i2 as int, sg as int, 0int, 0int)),
                    forall|a: int, b: int| 0 <= a < b < tr.len() ==> #[trigger] tr[a] != #[trigger] tr[b],
                    forall|key: (int, int, int, int, int, int)| #[trigger] valid2(key) && key_lt(key, (1int, i1 as int, i2 as int, sg as int, 0int, 0int)) ==> keys.contains(key),
                    vis.seen() == s0 + tr,
                    vis.ready(),
                    i1 < i2 < 24,
                    sg <= 4,
                    tr.len() == 97_152 + 4 * pairs_before(i1 as int) + 4 * (i2 - i1 - 1) + sg,
                    forall|k: int| 0 <= k < tr.len() ==> on_shell(#[trigger] tr[k], 2),
                decreases 4 - sg,
            {
                let ghost keys0 = keys;
                let mut x: Point = [0i32; 24];
                x[i1] = if sg & 1 == 1 {
                    -4
                } else {
                    4
                };
                x[i2] = if sg & 2 == 2 {
                    -4
                } else {
                    4
                };
                proof {
                    lemma_four_member(x, i1 as int, i2 as int);
                }
                vis.visit(&x);
                proof {
                    assert(s0 + tr.push(x) =~= (s0 + tr).push(x));
                }
                proof {
                    assert((sg & 1 == 1) == (sg % 2 == 1) && (sg & 2 == 2) == (sg / 2 == 1)) by (bit_vector)
                        requires
                            sg < 4,
                    ;
                    assert(four_pt(x, i1 as int, i2 as int, sg as int));
                    assert forall|k: int| 0 <= k < tr.len() implies #[trigger] tr[k] != x by {
                        if tr[k] == x {
                            lemma_pt2_inj(x, keys[k], (1int, i1 as int, i2 as int, sg as int, 0int, 0int), *g);
                        }
                    }
                    tr = tr.push(x);
                    keys = keys.push((1int, i1 as int, i2 as int, sg as int, 0int, 0int));
                }
                sg = sg + 1;
                proof {
                    assert forall|key: (int, int, int, int, int, int)| #[trigger] valid2(key) && key_lt(key, (1int, i1 as int, i2 as int, sg as int, 0int, 0int)) implies keys.contains(key) by {
                        if key_lt(key, (1int, i1 as int, i2 as int, (sg - 1) as int, 0int, 0int)) {
                            assert(keys0.contains(key));
                            let j = choose|j: int| 0 <= j < keys0.len() && keys0[j] == key;
                            assert(keys[j] == key);
                        } else {
                            assert(key == (1int, i1 as int, i2 as int, (sg - 1) as int, 0int, 0int));
                            assert(keys == keys0.push(key));
                            assert(keys[keys.len() - 1] == key);
                        }
                    }
                }
            }
            i2 = i2 + 1;
        }
        proof {
            assert(pairs_before(i1 as int + 1) == pairs_before(i1 as int) + (23 - i1));
        }
        i1 = i1 + 1;
    }
    proof {
        reveal_with_fuel(pairs_before, 25);
        assert(pairs_before(24) == 276);
    }
    // (±3, ±1²³): +3 on the support, −3 off it, at each position.
    let words = g.codewords();
    let mut w: usize = 0;
    while w < words.len()
        invariant
            g.wf(),
            keys.len() == tr.len(),
            98_256 <= tr.len(),
            forall|k: int| 0 <= k < 97_152 ==> (#[trigger] keys[k]).0 == 0,
            forall|k: int| 97_152 <= k < 98_256 ==> (#[trigger] keys[k]).0 == 1,
            forall|k: int| 98_256 <= k < tr.len() ==> (#[trigger] keys[k]).0 == 2,
            forall|k: int| 0 <= k < tr.len() ==> pt2(#[trigger] tr[k], keys[k], *g),
            forall|k: int| 0 <= k < tr.len() ==> key_lt(#[trigger] keys[k], (2int, w as int, 0int, 0int, 0int, 0int)),
            forall|a: int, b: int| 0 <= a < b < tr.len() ==> #[trigger] tr[a] != #[trigger] tr[b],
            forall|key: (int, int, int, int, int, int)| #[trigger] valid2(key) && key_lt(key, (2int, w as int, 0int, 0int, 0int, 0int)) ==> keys.contains(key),
            vis.seen() == s0 + tr,
            vis.ready(),
            words@ == g.words(),
            words@.len() == 4096,
            w <= 4096,
            tr.len() == 98_256 + 24 * w,
            forall|k: int| 0 <= k < tr.len() ==> on_shell(#[trigger] tr[k], 2),
        decreases words.len() - w,
    {
        let c = words[w];
        proof {
            g.lemma_words_are_codewords(w as int);
        }
        let mut p: usize = 0;
        while p < 24
            invariant
                g.wf(),
                keys.len() == tr.len(),
                98_256 <= tr.len(),
                forall|k: int| 0 <= k < 97_152 ==> (#[trigger] keys[k]).0 == 0,
                forall|k: int| 97_152 <= k < 98_256 ==> (#[trigger] keys[k]).0 == 1,
                forall|k: int| 98_256 <= k < tr.len() ==> (#[trigger] keys[k]).0 == 2,
                forall|k: int| 0 <= k < tr.len() ==> pt2(#[trigger] tr[k], keys[k], *g),
                forall|k: int| 0 <= k < tr.len() ==> key_lt(#[trigger] keys[k], (2int, w as int, p as int, 0int, 0int, 0int)),
                forall|a: int, b: int| 0 <= a < b < tr.len() ==> #[trigger] tr[a] != #[trigger] tr[b],
                words@ == g.words(),
                w < 4096,
                c == words@[w as int],
                forall|key: (int, int, int, int, int, int)| #[trigger] valid2(key) && key_lt(key, (2int, w as int, p as int, 0int, 0int, 0int)) ==> keys.contains(key),
                vis.seen() == s0 + tr,
                vis.ready(),
                is_codeword(c),
                p <= 24,
                tr.len() == 98_256 + 24 * w + p,
                forall|k: int| 0 <= k < tr.len() ==> on_shell(#[trigger] tr[k], 2),
            decreases 24 - p,
        {
            let ghost keys0 = keys;
            let mut x = ones_base(c);
            x[p] = if (c >> (p as u32)) & 1 == 1 {
                3
            } else {
                -3
            };
            proof {
                let t = seq![p as int];
                assert forall|i: int| 0 <= i < 24 implies #[trigger] x[i] == odd_coord(
                    marked(t, 3, 1)(i),
                    bit(c, i as u32) == 1,
                ) by {
                    if i == p {
                        assert(t[0] == i);
                        assert(t.contains(i));
                    } else {
                        assert(!t.contains(i)) by {
                            if t.contains(i) {
                                let j = choose|j: int| 0 <= j < t.len() && t[j] == i;
                            }
                        }
                    }
                }
                lemma_odd_member(x, c, 3, t);
                assert(odd_pt(x, c, t, 3));
            }
            vis.visit(&x);
            proof {
                assert(s0 + tr.push(x) =~= (s0 + tr).push(x));
            }
            proof {
                assert(pt2(x, (2int, w as int, p as int, 0int, 0int, 0int), *g));
                    assert forall|k: int| 0 <= k < tr.len() implies #[trigger] tr[k] != x by {
                        if tr[k] == x {
                            lemma_pt2_inj(x, keys[k], (2int, w as int, p as int, 0int, 0int, 0int), *g);
                        }
                    }
                    tr = tr.push(x);
                    keys = keys.push((2int, w as int, p as int, 0int, 0int, 0int));
            }
            p = p + 1;
            proof {
                assert forall|key: (int, int, int, int, int, int)| #[trigger] valid2(key) && key_lt(key, (2int, w as int, p as int, 0int, 0int, 0int)) implies keys.contains(key) by {
                    if key_lt(key, (2int, w as int, (p - 1) as int, 0int, 0int, 0int)) {
                        assert(keys0.contains(key));
                        let j = choose|j: int| 0 <= j < keys0.len() && keys0[j] == key;
                        assert(keys[j] == key);
                    } else {
                        assert(key == (2int, w as int, (p - 1) as int, 0int, 0int, 0int));
                        assert(keys == keys0.push(key));
                        assert(keys[keys.len() - 1] == key);
                    }
                }
            }
        }
        w = w + 1;
    }
    proof {
        assert forall|k: int| 0 <= k < tr.len() implies shell2_class(#[trigger] tr[k])
            == shell2_class_at(k) by {
            let kk = lemma_shell2_key(tr[k], *g);
            lemma_pt2_inj(tr[k], keys[k], kk, *g);
        }
        assert forall|p: Point| on_shell(p, 2) implies tr.contains(p) by {
            let kk = lemma_shell2_key(p, *g);
            assert(valid2(kk));
            assert(key_lt(kk, (2int, 4096int, 0int, 0int, 0int, 0int)));
            assert(keys.contains(kk));
            let j = choose|j: int| 0 <= j < keys.len() && keys[j] == kk;
            lemma_pt2_det(tr[j], p, kk, *g);
        }
        assert forall|a: int, b: int| 0 <= a < tr.len() && 0 <= b < tr.len() && a != b implies tr[a] != tr[b] by {
            if a < b {
                assert(tr[a] != tr[b]);
            } else {
                assert(tr[b] != tr[a]);
            }
        }
    }
    Ghost(tr)
}


/// The number of pairs `a < b < c < 24`.
pub open spec fn pairs_after(a: int) -> int
    decreases 24 - a,
{
    if a >= 22 {
        0
    } else {
        (22 - a) + pairs_after(a + 1)
    }
}

/// The number of triples `a < b < c < 24` with `a < i`.
pub open spec fn triples_before(i: int) -> int
    decreases i,
{
    if i <= 0 {
        0
    } else {
        triples_before(i - 1) + pairs_after(i - 1)
    }
}

/// Every point of Shell(3), class by class; the trace lists the points
/// handed to `f`, in order.
fn shell3<V: ShellVisitor>(g: &Golay, vis: &mut V) -> (trace: Ghost<Seq<Point>>)
    requires
        g.wf(),
        old(vis).ready(),
    ensures
        final(vis).seen() == old(vis).seen() + trace@,
        trace@.len() == 16_773_120,
        forall|k: int| 0 <= k < trace@.len() ==> on_shell(#[trigger] trace@[k], 3),
        trace@.no_duplicates(),
        forall|p: Point| on_shell(p, 3) ==> trace@.contains(p),
        forall|k: int|
            0 <= k < trace@.len() ==> shell3_class(#[trigger] trace@[k]) == shell3_class_at(k),
{
    let ghost s0 = vis.seen();
    let ghost mut tr: Seq<Point> = Seq::empty();
    let ghost mut keys: Seq<(int, int, int, int, int, int)> = Seq::empty();
    // (±2¹²): dodecad support, even number of minus signs.
    let dodecads = g.of_weight(12);
    let mut o: usize = 0;
    while o < dodecads.len()
        invariant
            g.wf(),
            keys.len() == tr.len(),
            forall|k: int| 0 <= k < tr.len() ==> (#[trigger] keys[k]).0 == 0,
            forall|k: int| 0 <= k < tr.len() ==> pt3(#[trigger] tr[k], keys[k], *g),
            forall|k: int| 0 <= k < tr.len() ==> key_lt(#[trigger] keys[k], (0int, o as int, 0int, 0int, 0int, 0int)),
            forall|a: int, b: int| 0 <= a < b < tr.len() ==> #[trigger] tr[a] != #[trigger] tr[b],
            dodecads@ == g.bucket(12),
            forall|key: (int, int, int, int, int, int)| #[trigger] valid3(key, *g) && key_lt(key, (0int, o as int, 0int, 0int, 0int, 0int)) ==> keys.contains(key),
            vis.seen() == s0 + tr,
            vis.ready(),
            forall|x: u32| dodecads@.contains(x) <==> (is_codeword(x) && pc(x) == 12),
            dodecads@.len() == 2576,
            o <= dodecads.len(),
            tr.len() == 2048 * o,
            forall|k: int| 0 <= k < tr.len() ==> on_shell(#[trigger] tr[k], 3),
        decreases dodecads.len() - o,
    {
        let dod = dodecads[o];
        proof {
            assert(dodecads@.contains(dod));
            lemma_codeword_facts(dod);
        }
        let mut sgn: u32 = 0;
        while sgn < 4096
            invariant
                g.wf(),
                keys.len() == tr.len(),
                forall|k: int| 0 <= k < tr.len() ==> (#[trigger] keys[k]).0 == 0,
                forall|k: int| 0 <= k < tr.len() ==> pt3(#[trigger] tr[k], keys[k], *g),
                forall|k: int| 0 <= k < tr.len() ==> key_lt(#[trigger] keys[k], (0int, o as int, sgn as int, 0int, 0int, 0int)),
                forall|a: int, b: int| 0 <= a < b < tr.len() ==> #[trigger] tr[a] != #[trigger] tr[b],
                dodecads@ == g.bucket(12),
                o < dodecads.len(),
                dod == dodecads@[o as int],
                forall|key: (int, int, int, int, int, int)| #[trigger] valid3(key, *g) && key_lt(key, (0int, o as int, sgn as int, 0int, 0int, 0int)) ==> keys.contains(key),
                vis.seen() == s0 + tr,
                vis.ready(),
                is_codeword(dod),
                pc(dod) == 12,
                pc_upto(dod, 24) == 12,
                sgn <= 4096,
                tr.len() == 2048 * o + parity_count(12, sgn as int, 0),
                forall|k: int| 0 <= k < tr.len() ==> on_shell(#[trigger] tr[k], 3),
            decreases 4096 - sgn,
        {
            let ghost keys0 = keys;
            let (x, n) = two_on_support(dod, sgn);
            if n % 2 == 0 {
                proof {
                    lemma_two_member(x, dod, n as int, 0, 24);
                }
                vis.visit(&x);
                proof {
                    assert(s0 + tr.push(x) =~= (s0 + tr).push(x));
                }
                proof {
                    assert(pt3(x, (0int, o as int, sgn as int, 0int, 0int, 0int), *g));
                    assert forall|k: int| 0 <= k < tr.len() implies #[trigger] tr[k] != x by {
                        if tr[k] == x {
                            lemma_pt3_inj(x, keys[k], (0int, o as int, sgn as int, 0int, 0int, 0int), *g);
                        }
                    }
                    tr = tr.push(x);
                    keys = keys.push((0int, o as int, sgn as int, 0int, 0int, 0int));
                }
            }
            sgn = sgn + 1;
            proof {
                assert forall|key: (int, int, int, int, int, int)| #[trigger] valid3(key, *g) && key_lt(key, (0int, o as int, sgn as int, 0int, 0int, 0int)) implies keys.contains(key) by {
                    if key_lt(key, (0int, o as int, (sgn - 1) as int, 0int, 0int, 0int)) {
                        assert(keys0.contains(key));
                        let j = choose|j: int| 0 <= j < keys0.len() && keys0[j] == key;
                        assert(keys[j] == key);
                    } else {
                        assert(key == (0int, o as int, (sgn - 1) as int, 0int, 0int, 0int));
                        assert(keys == keys0.push(key));
                        assert(keys[keys.len() - 1] == key);
                    }
                }
            }
        }
        proof {
            lemma_parity_count(12, 2048);
        }
        o = o + 1;
    }
    // (±4, ±2⁸): octad support with an odd number of minus signs, and ±4
    // at a position off the octad.
    let octads = g.of_weight(8);
    let mut o: usize = 0;
    while o < octads.len()
        invariant
            g.wf(),
            keys.len() == tr.len(),
            5_275_648 <= tr.len(),
            forall|k: int| 0 <= k < 5_275_648 ==> (#[trigger] keys[k]).0 == 0,
            forall|k: int| 5_275_648 <= k < tr.len() ==> (#[trigger] keys[k]).0 == 1,
            forall|k: int| 0 <= k < tr.len() ==> pt3(#[trigger] tr[k], keys[k], *g),
            forall|k: int| 0 <= k < tr.len() ==> key_lt(#[trigger] keys[k], (1int, o as int, 0int, 0int, 0int, 0int)),
            forall|a: int, b: int| 0 <= a < b < tr.len() ==> #[trigger] tr[a] != #[trigger] tr[b],
            octads@ == g.bucket(8),
            forall|key: (int, int, int, int, int, int)| #[trigger] valid3(key, *g) && key_lt(key, (1int, o as int, 0int, 0int, 0int, 0int)) ==> keys.contains(key),
            vis.seen() == s0 + tr,
            vis.ready(),
            forall|x: u32| octads@.contains(x) <==> (is_codeword(x) && pc(x) == 8),
            octads@.len() == 759,
            o <= octads.len(),
            tr.len() == 5_275_648 + 4096 * o,
            forall|k: int| 0 <= k < tr.len() ==> on_shell(#[trigger] tr[k], 3),
        decreases octads.len() - o,
    {
        let oct = octads[o];
        proof {
            assert(octads@.contains(oct));
            lemma_codeword_facts(oct);
            assert(pc_upto(oct, 0) == 0);
        }
        let mut p4: usize = 0;
        while p4 < 24
            invariant
                g.wf(),
                keys.len() == tr.len(),
                5_275_648 <= tr.len(),
                forall|k: int| 0 <= k < 5_275_648 ==> (#[trigger] keys[k]).0 == 0,
                forall|k: int| 5_275_648 <= k < tr.len() ==> (#[trigger] keys[k]).0 == 1,
                forall|k: int| 0 <= k < tr.len() ==> pt3(#[trigger] tr[k], keys[k], *g),
                forall|k: int| 0 <= k < tr.len() ==> key_lt(#[trigger] keys[k], (1int, o as int, p4 as int, 0int, 0int, 0int)),
                forall|a: int, b: int| 0 <= a < b < tr.len() ==> #[trigger] tr[a] != #[trigger] tr[b],
                octads@ == g.bucket(8),
                o < octads.len(),
                oct == octads@[o as int],
                forall|key: (int, int, int, int, int, int)| #[trigger] valid3(key, *g) && key_lt(key, (1int, o as int, p4 as int, 0int, 0int, 0int)) ==> keys.contains(key),
                vis.seen() == s0 + tr,
                vis.ready(),
                is_codeword(oct),
                pc(oct) == 8,
                pc_upto(oct, 24) == 8,
                p4 <= 24,
                tr.len() == 5_275_648 + 4096 * o + 256 * (p4 - pc_upto(oct, p4 as u32)),
                forall|k: int| 0 <= k < tr.len() ==> on_shell(#[trigger] tr[k], 3),
            decreases 24 - p4,
        {
            proof {
                lemma_pc_upto_step(oct, p4 as int);
                assert((p4 + 1) as u32 == (p4 as u32 + 1) as u32);
            }
            if (oct >> (p4 as u32)) & 1 == 0 {
                let mut v: usize = 0;
                while v < 2
                    invariant
                        g.wf(),
                        keys.len() == tr.len(),
                        5_275_648 <= tr.len(),
                        forall|k: int| 0 <= k < 5_275_648 ==> (#[trigger] keys[k]).0 == 0,
                        forall|k: int| 5_275_648 <= k < tr.len() ==> (#[trigger] keys[k]).0 == 1,
                        forall|k: int| 0 <= k < tr.len() ==> pt3(#[trigger] tr[k], keys[k], *g),
                        forall|k: int| 0 <= k < tr.len() ==> key_lt(#[trigger] keys[k], (1int, o as int, p4 as int, v as int, 0int, 0int)),
                        forall|a: int, b: int| 0 <= a < b < tr.len() ==> #[trigger] tr[a] != #[trigger] tr[b],
                        octads@ == g.bucket(8),
                        o < octads.len(),
                        oct == octads@[o as int],
                        forall|key: (int, int, int, int, int, int)| #[trigger] valid3(key, *g) && key_lt(key, (1int, o as int, p4 as int, v as int, 0int, 0int)) ==> keys.contains(key),
                        vis.seen() == s0 + tr,
                        vis.ready(),
                        is_codeword(oct),
                        pc(oct) == 8,
                        pc_upto(oct, 24) == 8,
                        p4 < 24,
                        bit(oct, p4 as u32) == 0,
                        v <= 2,
                        tr.len() == 5_275_648 + 4096 * o + 256 * (p4 - pc_upto(oct, p4 as u32))
                            + 128 * v,
                        forall|k: int| 0 <= k < tr.len() ==> on_shell(#[trigger] tr[k], 3),
                    decreases 2 - v,
                {
                    let v4: i32 = if v == 0 {
                        4
                    } else {
                        -4
                    };
                    let mut sgn: u32 = 0;
                    while sgn < 256
                        invariant
                            g.wf(),
                            keys.len() == tr.len(),
                            5_275_648 <= tr.len(),
                            forall|k: int| 0 <= k < 5_275_648 ==> (#[trigger] keys[k]).0 == 0,
                            forall|k: int| 5_275_648 <= k < tr.len() ==> (#[trigger] keys[k]).0 == 1,
                            forall|k: int| 0 <= k < tr.len() ==> pt3(#[trigger] tr[k], keys[k], *g),
                            forall|k: int| 0 <= k < tr.len() ==> key_lt(#[trigger] keys[k], (1int, o as int, p4 as int, v as int, sgn as int, 0int)),
                            forall|a: int, b: int| 0 <= a < b < tr.len() ==> #[trigger] tr[a] != #[trigger] tr[b],
                            octads@ == g.bucket(8),
                            o < octads.len(),
                            oct == octads@[o as int],
                            forall|key: (int, int, int, int, int, int)| #[trigger] valid3(key, *g) && key_lt(key, (1int, o as int, p4 as int, v as int, sgn as int, 0int)) ==> keys.contains(key),
                            vis.seen() == s0 + tr,
                            vis.ready(),
                            is_codeword(oct),
                            pc(oct) == 8,
                            pc_upto(oct, 24) == 8,
                            p4 < 24,
                            bit(oct, p4 as u32) == 0,
                            v4 == (if v == 0 { 4i32 } else { -4i32 }),
                            v < 2,
                            sgn <= 256,
                            tr.len() == 5_275_648 + 4096 * o + 256 * (p4 - pc_upto(oct, p4 as u32))
                                + 128 * v + parity_count(8, sgn as int, 1),
                            forall|k: int| 0 <= k < tr.len() ==> on_shell(#[trigger] tr[k], 3),
                        decreases 256 - sgn,
                    {
                        let ghost keys0 = keys;
                        let (x0, n) = two_on_support(oct, sgn);
                        if n % 2 == 1 {
                            let mut x = x0;
                            x[p4] = v4;
                            proof {
                                assert forall|i: int| 0 <= i < 24 && i != p4 implies #[trigger] neg_on_f(
                                    x,
                                    oct,
                                )(i) == neg_on_f(x0, oct)(i) by {}
                                assert(neg_on_f(x, oct)(p4 as int) == neg_on_f(x0, oct)(p4 as int));
                                lemma_psum_ext(neg_on_f(x, oct), neg_on_f(x0, oct), 24);
                                lemma_two_member(x, oct, n as int, 1, p4 as int);
                            }
                            vis.visit(&x);
                            proof {
                                assert(s0 + tr.push(x) =~= (s0 + tr).push(x));
                            }
                            proof {
                                assert(forall|i: int| 0 <= i < 24 && i != p4 ==> #[trigger] x[i] == x0[i]);
                                assert(forall|i: int| 0 <= i < 24 && i != p4 ==> #[trigger] x[i] == two_val(oct, sgn, i));
                                assert(pt3(x, (1int, o as int, p4 as int, v as int, sgn as int, 0int), *g));
                                assert forall|k: int| 0 <= k < tr.len() implies #[trigger] tr[k] != x by {
                                    if tr[k] == x {
                                        lemma_pt3_inj(x, keys[k], (1int, o as int, p4 as int, v as int, sgn as int, 0int), *g);
                                    }
                                }
                                tr = tr.push(x);
                                keys = keys.push((1int, o as int, p4 as int, v as int, sgn as int, 0int));
                            }
                        }
                        sgn = sgn + 1;
                        proof {
                            assert forall|key: (int, int, int, int, int, int)| #[trigger] valid3(key, *g) && key_lt(key, (1int, o as int, p4 as int, v as int, sgn as int, 0int)) implies keys.contains(key) by {
                                if key_lt(key, (1int, o as int, p4 as int, v as int, (sgn - 1) as int, 0int)) {
                                    assert(keys0.contains(key));
                                    let j = choose|j: int| 0 <= j < keys0.len() && keys0[j] == key;
                                    assert(keys[j] == key);
                                } else {
                                    assert(key == (1int, o as int, p4 as int, v as int, (sgn - 1) as int, 0int));
                                    assert(keys == keys0.push(key));
                                    assert(keys[keys.len() - 1] == key);
                                }
                            }
                        }
                    }
                    proof {
                        lemma_parity_count(8, 128);
                    }
                    v = v + 1;
                }
            }
            p4 = p4 + 1;
        }
        o = o + 1;
    }
    proof {
        reveal_with_fuel(pairs_after, 25);
        reveal_with_fuel(triples_before, 25);
        assert(triples_before(24) == 2024);
    }
    // (±5, ±1²³): one point per codeword and position, signs forced by the
    // codeword.
    let words = g.codewords();
    let mut w: usize = 0;
    while w < words.len()
        invariant
            g.wf(),
            keys.len() == tr.len(),
            8_384_512 <= tr.len(),
            forall|k: int| 0 <= k < 5_275_648 ==> (#[trigger] keys[k]).0 == 0,
            forall|k: int| 5_275_648 <= k < 8_384_512 ==> (#[trigger] keys[k]).0 == 1,
            forall|k: int| 8_384_512 <= k < tr.len() ==> (#[trigger] keys[k]).0 == 2,
            forall|k: int| 0 <= k < tr.len() ==> pt3(#[trigger] tr[k], keys[k], *g),
            forall|k: int| 0 <= k < tr.len() ==> key_lt(#[trigger] keys[k], (2int, w as int, 0int, 0int, 0int, 0int)),
            forall|a: int, b: int| 0 <= a < b < tr.len() ==> #[trigger] tr[a] != #[trigger] tr[b],
            forall|key: (int, int, int, int, int, int)| #[trigger] valid3(key, *g) && key_lt(key, (2int, w as int, 0int, 0int, 0int, 0int)) ==> keys.contains(key),
            vis.seen() == s0 + tr,
            vis.ready(),
            words@ == g.words(),
            words@.len() == 4096,
            w <= 4096,
            triples_before(24) == 2024,
            tr.len() == 8_384_512 + 24 * w,
            forall|k: int| 0 <= k < tr.len() ==> on_shell(#[trigger] tr[k], 3),
        decreases words.len() - w,
    {
        let c = words[w];
        proof {
            g.lemma_words_are_codewords(w as int);
        }
        // (±5, ±1²³): −5 on the support, +5 off it.
        let mut p: usize = 0;
        while p < 24
            invariant
                g.wf(),
                keys.len() == tr.len(),
                8_384_512 <= tr.len(),
                forall|k: int| 0 <= k < 5_275_648 ==> (#[trigger] keys[k]).0 == 0,
                forall|k: int| 5_275_648 <= k < 8_384_512 ==> (#[trigger] keys[k]).0 == 1,
                forall|k: int| 8_384_512 <= k < tr.len() ==> (#[trigger] keys[k]).0 == 2,
                forall|k: int| 0 <= k < tr.len() ==> pt3(#[trigger] tr[k], keys[k], *g),
                forall|k: int| 0 <= k < tr.len() ==> key_lt(#[trigger] keys[k], (2int, w as int, 0int, p as int, 0int, 0int)),
                forall|a: int, b: int| 0 <= a < b < tr.len() ==> #[trigger] tr[a] != #[trigger] tr[b],
                words@ == g.words(),
                w < 4096,
                c == words@[w as int],
                forall|key: (int, int, int, int, int, int)| #[trigger] valid3(key, *g) && key_lt(key, (2int, w as int, 0int, p as int, 0int, 0int)) ==> keys.contains(key),
                vis.seen() == s0 + tr,
                vis.ready(),
                is_codeword(c),
                p <= 24,
                tr.len() == 8_384_512 + 24 * w + p,
                forall|k: int| 0 <= k < tr.len() ==> on_shell(#[trigger] tr[k], 3),
            decreases 24 - p,
        {
            let ghost keys0 = keys;
            let mut x = ones_base(c);
            x[p] = if (c >> (p as u32)) & 1 == 1 {
                -5
            } else {
                5
            };
            proof {
                let t = seq![p as int];
                assert forall|i: int| 0 <= i < 24 implies #[trigger] x[i] == odd_coord(
                    marked(t, 5, 1)(i),
                    bit(c, i as u32) == 1,
                ) by {
                    if i == p {
                        assert(t[0] == i);
                        assert(t.contains(i));
                    } else {
                        assert(!t.contains(i)) by {
                            if t.contains(i) {
                                let j = choose|j: int| 0 <= j < t.len() && t[j] == i;
                            }
                        }
                    }
                }
                lemma_odd_member(x, c, 5, t);
                assert(odd_pt(x, c, t, 5));
            }
            vis.visit(&x);
            proof {
                assert(s0 + tr.push(x) =~= (s0 + tr).push(x));
            }
            proof {
                assert(pt3(x, (2int, w as int, 0int, p as int, 0int, 0int), *g));
                assert forall|k: int| 0 <= k < tr.len() implies #[trigger] tr[k] != x by {
                    if tr[k] == x {
                        lemma_pt3_inj(x, keys[k], (2int, w as int, 0int, p as int, 0int, 0int), *g);
                    }
                }
                tr = tr.push(x);
                keys = keys.push((2int, w as int, 0int, p as int, 0int, 0int));
            }
            p = p + 1;
            proof {
                assert forall|key: (int, int, int, int, int, int)| #[trigger] valid3(key, *g) && key_lt(key, (2int, w as int, 0int, p as int, 0int, 0int)) implies keys.contains(key) by {
                    if key_lt(key, (2int, w as int, 0int, (p - 1) as int, 0int, 0int)) {
                        assert(keys0.contains(key));
                        let j = choose|j: int| 0 <= j < keys0.len() && keys0[j] == key;
                        assert(keys[j] == key);
                    } else {
                        assert(key == (2int, w as int, 0int, (p - 1) as int, 0int, 0int));
                        assert(keys == keys0.push(key));
                        assert(keys[keys.len() - 1] == key);
                    }
                }
            }
        }
        w = w + 1;
    }
    // (±3³, ±1²¹): one point per codeword and three positions, signs forced
    // by the codeword.
    w = 0;
    while w < words.len()
        invariant
            g.wf(),
            keys.len() == tr.len(),
            8_482_816 <= tr.len(),
            forall|k: int| 0 <= k < 5_275_648 ==> (#[trigger] keys[k]).0 == 0,
            forall|k: int| 5_275_648 <= k < 8_384_512 ==> (#[trigger] keys[k]).0 == 1,
            forall|k: int| 8_384_512 <= k < 8_482_816 ==> (#[trigger] keys[k]).0 == 2,
            forall|k: int| 8_482_816 <= k < tr.len() ==> (#[trigger] keys[k]).0 == 3,
            forall|k: int| 0 <= k < tr.len() ==> pt3(#[trigger] tr[k], keys[k], *g),
            forall|k: int| 0 <= k < tr.len() ==> key_lt(#[trigger] keys[k], (3int, w as int, 0int, 0int, 0int, 0int)),
            forall|a: int, b: int| 0 <= a < b < tr.len() ==> #[trigger] tr[a] != #[trigger] tr[b],
            forall|key: (int, int, int, int, int, int)| #[trigger] valid3(key, *g) && key_lt(key, (3int, w as int, 0int, 0int, 0int, 0int)) ==> keys.contains(key),
            vis.seen() == s0 + tr,
            vis.ready(),
            words@ == g.words(),
            words@.len() == 4096,
            w <= 4096,
            triples_before(24) == 2024,
            tr.len() == 8_482_816 + 2024 * w,
            forall|k: int| 0 <= k < tr.len() ==> on_shell(#[trigger] tr[k], 3),
        decreases words.len() - w,
    {
        let c = words[w];
        proof {
            g.lemma_words_are_codewords(w as int);
        }
        // (±3³, ±1²¹): +3 on the support, −3 off it, at three positions.
        let mut i1: usize = 0;
        while i1 < 24
            invariant
                g.wf(),
                keys.len() == tr.len(),
                8_482_816 <= tr.len(),
                forall|k: int| 0 <= k < 5_275_648 ==> (#[trigger] keys[k]).0 == 0,
                forall|k: int| 5_275_648 <= k < 8_384_512 ==> (#[trigger] keys[k]).0 == 1,
                forall|k: int| 8_384_512 <= k < 8_482_816 ==> (#[trigger] keys[k]).0 == 2,
                forall|k: int| 8_482_816 <= k < tr.len() ==> (#[trigger] keys[k]).0 == 3,
                forall|k: int| 0 <= k < tr.len() ==> pt3(#[trigger] tr[k], keys[k], *g),
                forall|k: int| 0 <= k < tr.len() ==> key_lt(#[trigger] keys[k], (3int, w as int, 1int, i1 as int, 0int, 0int)),
                forall|a: int, b: int| 0 <= a < b < tr.len() ==> #[trigger] tr[a] != #[trigger] tr[b],
                words@ == g.words(),
                w < 4096,
                c == words@[w as int],
                forall|key: (int, int, int, int, int, int)| #[trigger] valid3(key, *g) && key_lt(key, (3int, w as int, 1int, i1 as int, 0int, 0int)) ==> keys.contains(key),
                vis.seen() == s0 + tr,
                vis.ready(),
                is_codeword(c),
                i1 <= 24,
                tr.len() == 8_482_816 + 2024 * w + triples_before(i1 as int),
                forall|k: int| 0 <= k < tr.len() ==> on_shell(#[trigger] tr[k], 3),
            decreases 24 - i1,
        {
            let mut i2: usize = i1 + 1;
            while i2 < 24
                invariant
                    g.wf(),
                    keys.len() == tr.len(),
                    8_482_816 <= tr.len(),
                    forall|k: int| 0 <= k < 5_275_648 ==> (#[trigger] keys[k]).0 == 0,
                    forall|k: int| 5_275_648 <= k < 8_384_512 ==> (#[trigger] keys[k]).0 == 1,
                    forall|k: int| 8_384_512 <= k < 8_482_816 ==> (#[trigger] keys[k]).0 == 2,
                    forall|k: int| 8_482_816 <= k < tr.len() ==> (#[trigger] keys[k]).0 == 3,
                    forall|k: int| 0 <= k < tr.len() ==> pt3(#[trigger] tr[k], keys[k], *g),
                    forall|k: int| 0 <= k < tr.len() ==> key_lt(#[trigger] keys[k], (3int, w as int, 1int, i1 as int, i2 as int, 0int)),
                    forall|a: int, b: int| 0 <= a < b < tr.len() ==> #[trigger] tr[a] != #[trigger] tr[b],
                    words@ == g.words(),
                    w < 4096,
                    c == words@[w as int],
                    forall|key: (int, int, int, int, int, int)| #[trigger] valid3(key, *g) && key_lt(key, (3int, w as int, 1int, i1 as int, i2 as int, 0int)) ==> keys.contains(key),
                    vis.seen() == s0 + tr,
                    vis.ready(),
                    is_codeword(c),
                    i1 < i2 <= 24,
                    tr.len() == 8_482_816 + 2024 * w + triples_before(i1 as int) + (pairs_after(
                        i1 as int,
                    ) - pairs_after(i2 - 1)),
                    forall|k: int| 0 <= k < tr.len() ==> on_shell(#[trigger] tr[k], 3),
                decreases 24 - i2,
            {
                let mut i3: usize = i2 + 1;
                while i3 < 24
                    invariant
                        g.wf(),
                        keys.len() == tr.len(),
                        8_482_816 <= tr.len(),
                        forall|k: int| 0 <= k < 5_275_648 ==> (#[trigger] keys[k]).0 == 0,
                        forall|k: int| 5_275_648 <= k < 8_384_512 ==> (#[trigger] keys[k]).0 == 1,
                        forall|k: int| 8_384_512 <= k < 8_482_816 ==> (#[trigger] keys[k]).0 == 2,
                        forall|k: int| 8_482_816 <= k < tr.len() ==> (#[trigger] keys[k]).0 == 3,
                        forall|k: int| 0 <= k < tr.len() ==> pt3(#[trigger] tr[k], keys[k], *g),
                        forall|k: int| 0 <= k < tr.len() ==> key_lt(#[trigger] keys[k], (3int, w as int, 1int, i1 as int, i2 as int, i3 as int)),
                        forall|a: int, b: int| 0 <= a < b < tr.len() ==> #[trigger] tr[a] != #[trigger] tr[b],
                        words@ == g.words(),
                        w < 4096,
                        c == words@[w as int],
                        forall|key: (int, int, int, int, int, int)| #[trigger] valid3(key, *g) && key_lt(key, (3int, w as int, 1int, i1 as int, i2 as int, i3 as int)) ==> keys.contains(key),
                        vis.seen() == s0 + tr,
                        vis.ready(),
                        is_codeword(c),
                        i1 < i2 < i3,
                        i2 < 24,
                        i3 <= 24,
                        tr.len() == 8_482_816 + 2024 * w + triples_before(i1 as int) + (
                        pairs_after(i1 as int) - pairs_after(i2 - 1)) + (i3 - i2 - 1),
                        forall|k: int| 0 <= k < tr.len() ==> on_shell(#[trigger] tr[k], 3),
                    decreases 24 - i3,
                {
                    let ghost keys0 = keys;
                    let mut x = ones_base(c);
                    let ghost base = x;
                    x[i1] = if (c >> (i1 as u32)) & 1 == 1 {
                        3
                    } else {
                        -3
                    };
                    x[i2] = if (c >> (i2 as u32)) & 1 == 1 {
                        3
                    } else {
                        -3
                    };
                    x[i3] = if (c >> (i3 as u32)) & 1 == 1 {
                        3
                    } else {
                        -3
                    };
                    proof {
                        let t = seq![i1 as int, i2 as int, i3 as int];
                        assert forall|i: int| 0 <= i < 24 implies #[trigger] x[i] == odd_coord(
                            marked(t, 3, 1)(i),
                            bit(c, i as u32) == 1,
                        ) by {
                            if i == i1 || i == i2 || i == i3 {
                                if i == i1 {
                                    assert(t[0] == i);
                                } else if i == i2 {
                                    assert(t[1] == i);
                                } else {
                                    assert(t[2] == i);
                                }
                                assert(t.contains(i));
                            } else {
                                assert(x[i] == base[i]);
                                assert(!t.contains(i)) by {
                                    if t.contains(i) {
                                        let j = choose|j: int| 0 <= j < t.len() && t[j] == i;
                                        assert(j == 0 || j == 1 || j == 2);
                                    }
                                }
                            }
                        }
                        lemma_odd_member(x, c, 3, t);
                        assert(odd_pt(x, c, t, 3));
                    }
                    vis.visit(&x);
                    proof {
                        assert(s0 + tr.push(x) =~= (s0 + tr).push(x));
                    }
                    proof {
                        assert(pt3(x, (3int, w as int, 1int, i1 as int, i2 as int, i3 as int), *g));
                        assert forall|k: int| 0 <= k < tr.len() implies #[trigger] tr[k] != x by {
                            if tr[k] == x {
                                lemma_pt3_inj(x, keys[k], (3int, w as int, 1int, i1 as int, i2 as int, i3 as int), *g);
                            }
                        }
                        tr = tr.push(x);
                        keys = keys.push((3int, w as int, 1int, i1 as int, i2 as int, i3 as int));
                    }
                    i3 = i3 + 1;
                    proof {
                        assert forall|key: (int, int, int, int, int, int)| #[trigger] valid3(key, *g) && key_lt(key, (3int, w as int, 1int, i1 as int, i2 as int, i3 as int)) implies keys.contains(key) by {
                            if key_lt(key, (3int, w as int, 1int, i1 as int, i2 as int, (i3 - 1) as int)) {
                                assert(keys0.contains(key));
                                let j = choose|j: int| 0 <= j < keys0.len() && keys0[j] == key;
                                assert(keys[j] == key);
                            } else {
                                assert(key == (3int, w as int, 1int, i1 as int, i2 as int, (i3 - 1) as int));
                                assert(keys == keys0.push(key));
                                assert(keys[keys.len() - 1] == key);
                            }
                        }
                    }
                }
                proof {
                    if i2 <= 22 {
                        assert(pairs_after(i2 - 1) == (23 - i2) + pairs_after(i2 as int));
                    } else {
                        assert(pairs_after(i2 - 1) == 0 && pairs_after(i2 as int) == 0);
                    }
                }
                i2 = i2 + 1;
            }
            proof {
                assert(pairs_after(i2 - 1) == 0);
                assert(triples_before(i1 as int + 1) == triples_before(i1 as int) + pairs_after(
                    i1 as int,
                ));
            }
            i1 = i1 + 1;
        }
        w = w + 1;
    }
    proof {
        assert forall|k: int| 0 <= k < tr.len() implies shell3_class(#[trigger] tr[k])
            == shell3_class_at(k) by {
            let kk = lemma_shell3_key(tr[k], *g);
            lemma_pt3_inj(tr[k], keys[k], kk, *g);
        }
        assert forall|p: Point| on_shell(p, 3) implies tr.contains(p) by {
            let kk = lemma_shell3_key(p, *g);
            assert(valid3(kk, *g));
            assert(key_lt(kk, (3int, 4096int, 0int, 0int, 0int, 0int)));
            assert(keys.contains(kk));
            let j = choose|j: int| 0 <= j < keys.len() && keys[j] == kk;
            lemma_pt3_det(tr[j], p, kk, *g);
        }
        assert forall|a: int, b: int| 0 <= a < tr.len() && 0 <= b < tr.len() && a != b implies tr[a] != tr[b] by {
            if a < b {
                assert(tr[a] != tr[b]);
            } else {
                assert(tr[b] != tr[a]);
            }
        }
    }
    Ghost(tr)
}

/// A consumer of the points of a shell walk. `seen` is the sequence of
/// points it has been handed so far; each `visit` appends one.
pub trait ShellVisitor {
    spec fn seen(&self) -> Seq<Point>;

    /// The visitor accepts any point.
    spec fn ready(&self) -> bool;

    fn visit(&mut self, p: &Point)
        requires
            old(self).ready(),
        ensures
            final(self).ready(),
            final(self).seen() == old(self).seen().push(*p),
    ;
}

/// A visitor that keeps every point it is handed.
pub struct PointLog {
    points: Vec<Point>,
}

impl PointLog {
    pub fn new() -> (l: Self)
        ensures
            l.seen() == Seq::<Point>::empty(),
            l.ready(),
    {
        PointLog { points: Vec::new() }
    }

    /// The points handed so far, in order.
    pub fn points(&self) -> (r: &Vec<Point>)
        ensures
            r@ == self.seen(),
    {
        &self.points
    }
}

impl ShellVisitor for PointLog {
    closed spec fn seen(&self) -> Seq<Point> {
        self.points@
    }

    closed spec fn ready(&self) -> bool {
        true
    }

    fn visit(&mut self, p: &Point) {
        self.points.push(*p);
    }
}

/// A visitor that hands each point to a closure and keeps the sequence of
/// points handed to it. The closure must accept every point.
pub struct FnVisitor<F: FnMut(&Point)> {
    f: F,
    log: Ghost<Seq<Point>>,
}

impl<F: FnMut(&Point)> FnVisitor<F> {
    pub fn new(f: F) -> (v: Self)
        requires
            forall|p: &Point| call_requires(f, (p,)),
        ensures
            v.seen() == Seq::<Point>::empty(),
            v.ready(),
    {
        FnVisitor { f, log: Ghost(Seq::empty()) }
    }
}

impl<F: FnMut(&Point)> ShellVisitor for FnVisitor<F> {
    closed spec fn seen(&self) -> Seq<Point> {
        self.log@
    }

    closed spec fn ready(&self) -> bool {
        forall|p: &Point| call_requires(self.f, (p,))
    }

    fn visit(&mut self, p: &Point) {
        (self.f)(p);
        proof {
            self.log@ = self.log@.push(*p);
        }
    }
}

/// The lattice points of `Shell(m)`, as a set.
pub open spec fn shell_points(m: int) -> Set<Point> {
    Set::new(|p: Point| on_shell(p, m))
}

/// The points appended to `before` to make `after`.
pub open spec fn appended(before: Seq<Point>, after: Seq<Point>) -> Seq<Point> {
    after.skip(before.len() as int)
}

/// A list of the points of `Shell(m)` without repetition counts the shell.
proof fn lemma_shell_points_count(t: Seq<Point>, m: int)
    requires
        t.no_duplicates(),
        forall|k: int| 0 <= k < t.len() ==> on_shell(#[trigger] t[k], m),
        forall|p: Point| on_shell(p, m) ==> t.contains(p),
    ensures
        shell_points(m).finite(),
        shell_points(m).len() == t.len(),
{
    assert(t.to_set() =~= shell_points(m)) by {
        assert forall|p: Point| t.to_set().contains(p) implies shell_points(m).contains(p) by {
            let k = choose|k: int| 0 <= k < t.len() && t[k] == p;
        }
    }
    t.unique_seq_to_set();
}

impl Leech {
    /// Hands `vis` every point of `Shell(m)` exactly once, for `m ∈ {2, 3}`,
    /// and returns `true`; returns `false` without handing it anything for any
    /// other shell. The points handed over, in order, are exactly the lattice
    /// points of norm `16·m`, without repetition: 196 560 of them for `m = 2`
    /// and 16 773 120 for `m = 3`, class by class in the order of
    /// [`shell2_class_at`] and [`shell3_class_at`]. So these are the sizes of
    /// the shells as sets ([`shell_points`]).
    pub fn for_each_shell_point<V: ShellVisitor>(&self, m: u32, vis: &mut V) -> (r: bool)
        requires
            self.wf(),
            old(vis).ready(),
        ensures
            r == (m == 2 || m == 3),
            final(vis).seen() == old(vis).seen() + appended(old(vis).seen(), final(vis).seen()),
            !r ==> final(vis).seen() == old(vis).seen(),
            m == 2 ==> appended(old(vis).seen(), final(vis).seen()).len() == 196_560,
            m == 3 ==> appended(old(vis).seen(), final(vis).seen()).len() == 16_773_120,
            forall|k: int|
                0 <= k < appended(old(vis).seen(), final(vis).seen()).len() ==> on_shell(
                    #[trigger] appended(old(vis).seen(), final(vis).seen())[k],
                    m as int,
                ),
            appended(old(vis).seen(), final(vis).seen()).no_duplicates(),
            r ==> forall|p: Point|
                on_shell(p, m as int) ==> appended(old(vis).seen(), final(vis).seen()).contains(p),
            r ==> shell_points(m as int).finite() && shell_points(m as int).len() == appended(
                old(vis).seen(),
                final(vis).seen(),
            ).len(),
            m == 2 ==> forall|k: int|
                0 <= k < appended(old(vis).seen(), final(vis).seen()).len() ==> shell2_class(
                    #[trigger] appended(old(vis).seen(), final(vis).seen())[k],
                ) == shell2_class_at(k),
            m == 3 ==> forall|k: int|
                0 <= k < appended(old(vis).seen(), final(vis).seen()).len() ==> shell3_class(
                    #[trigger] appended(old(vis).seen(), final(vis).seen())[k],
                ) == shell3_class_at(k),
    {
        let ghost s0 = vis.seen();
        if m == 2 {
            let t = shell2(self.golay(), vis);
            proof {
                assert(appended(s0, vis.seen()) =~= t@);
                lemma_shell_points_count(t@, 2);
            }
            true
        } else if m == 3 {
            let t = shell3(self.golay(), vis);
            proof {
                assert(appended(s0, vis.seen()) =~= t@);
                lemma_shell_points_count(t@, 3);
            }
            true
        } else {
            proof {
                assert(appended(s0, vis.seen()) =~= Seq::<Point>::empty());
            }
            false
        }
    }
}

/// The class decomposition of Shell(2): every lattice point of norm 32 is
/// `(±2⁸)` (eight coordinates ±2, the rest 0), `(±4²)` (two coordinates ±4)
/// or `(±3, ±1²³)`. `hist(x)[v]` counts the coordinates with `|x_i| = v`.
pub proof fn lemma_shell2_shapes(x: Point)
    requires
        is_member(x),
        norm(x) == 32,
    ensures
        (hist(x)[2] == 8 && hist(x)[0] == 16) || (hist(x)[4] == 2 && hist(x)[0] == 22) || (
        hist(x)[3] == 1 && hist(x)[1] == 23),
{
    if par(x) == 0 {
        lemma_even_parse(x);
    } else {
        lemma_odd_parse(x);
    }
}

/// The class decomposition of Shell(3): every lattice point of norm 48 is
/// `(±2¹²)`, `(±4, ±2⁸)`, `(±5, ±1²³)` or `(±3³, ±1²¹)`; in particular no
/// point has the shape `(±4³)`.
pub proof fn lemma_shell3_shapes(x: Point)
    requires
        is_member(x),
        norm(x) == 48,
    ensures
        (hist(x)[2] == 12 && hist(x)[0] == 12) || (hist(x)[4] == 1 && hist(x)[2] == 8 && hist(
            x,
        )[0] == 15) || (hist(x)[5] == 1 && hist(x)[1] == 23) || (hist(x)[3] == 3 && hist(x)[1]
            == 21),
{
    if par(x) == 0 {
        lemma_even_parse(x);
        let h = hist(x);
        if h[4] == 3 && h[0] == 21 {
            let c = golay_word(x);
            assert forall|i: int| 0 <= i < 24 implies #[trigger] bit(c, i as u32) == 0 by {
                let a = absv(x[i] as int);
                if a % 4 == 2 {
                    lemma_hist_present(x, i);
                }
            }
            lemma_psum_zero_all(neg_on_f(x, c), 24);
            assert(false);
        }
    } else {
        lemma_odd_parse(x);
    }
}

} // verus!
