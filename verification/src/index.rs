//! Bijective indexing of the ball `Λ24(13) ∪ {0}`.
//!
//! Every point of the ball gets a unique integer `0 ..= total` (0 is the
//! origin) without materialising the codebook: shells by increasing radius,
//! within a shell the even classes before the odd ones, each in enumeration
//! order, and inside a class the local degrees of freedom (codeword, value
//! arrangement, sign pattern) composed in mixed radix.
//!
//! * Even class (Golay weight `w`, `γ(w)` codewords):
//!   `local = (((g·A_on + r_on)·A_off + r_off)·S_w + r_sw)·S_f + r_sf`, with
//!   `g` the codeword's rank within its weight, `r_on`/`r_off` the
//!   multiset-permutation ranks of the word values on the support and of the
//!   free values and zeros off it (positions ascending), `r_sw` the first
//!   `w − 1` word signs (the last one is fixed by the sign parity), `r_sf`
//!   the signs of the non-zero free values.
//! * Odd class: `local = g₄₀₉₆·M + r_arr`, the flat rank of the codeword and
//!   the rank of the value arrangement over the 24 positions; the signs are
//!   forced by the codeword.
use vstd::prelude::*;

use crate::shells::shell_points;
use crate::ball::{
    lemma_bv_bound, lemma_bv_injective, collect, on_kinds_f, off_kinds_f, on_signs_f, off_signs_f,
    all_kinds_f, neg_bit, abs_seq, psum, lemma_even_parse, lemma_odd_parse, lemma_even_arr_parse,
    lemma_occ_counts, lemma_odd_arr_build, lemma_odd_arr_parse, lemma_odd_sum_mod8, lemma_hist_g,
    lemma_hist_total, h_g, lemma_ssum_push, lemma_bv_bitseq, lemma_pow2_facts, on_slot, off_slot,
    lemma_pc_upto_mono, lemma_pc_upto_step, lemma_nzc_mono, lemma_counts_occ, h_abs,
    lemma_even_arr_build, lemma_even_occ, lemma_even_sum_mod8, lemma_hist_abs_sum,
    lemma_hist_absent, lemma_hist_norm, lemma_neg_on_signs, lemma_nzc_occ, lemma_origin_norm,
    lemma_codeword_facts, occ, ind, neg_on, absv, all_kinds, bits01, bitseq, bv, dval, even_coord,
    even_counts, hist, in_ball, is_origin, nzc, odd_coord, odd_counts, off_kinds, off_signs,
    on_kinds, on_signs, oval, ssum, wval,
};
use crate::classes::{
    even_s0, lemma_even_list, lemma_odd_list, enumerate_classes, ClassSet, even_class_is, even_free_n,
    even_list, even_norm, even_p_req, even_pos, even_valid, even_w, gamma, odd_class_is, odd_list,
    odd_n1, odd_norm, odd_pos, odd_valid, pow2, pow2_exec, EvenClass, OddClass, EVEN_BOX, MAX_SHELL,
    ODD_BOX,
};
use crate::combin::{
    lemma_rank_unrank, has_counts, lemma_has_counts_range, lemma_rank_bound, nonneg, lemma_mult_pos,
    lemma_mult_pow_bound, lemma_pow_mono, lemma_pow_nonneg, mult, multinomial, perm_rank,
    perm_unrank, pow, rank, total, u8_counts,
};
use crate::golay::{
    bit, lemma_eq_by_bits, pc_upto, is_code_weight, is_codeword, pc, weight_distribution, Golay,
};
use crate::leech::{
    lemma_word_bits, coord_sum, golay_word, is_member, norm, par, Leech, Point,
    N_SHELL_13_CUMULATIVE,
};

verus! {

/// `N(13)`: the number of points of the shells `2 ..= 13`.
pub const N13: u64 = N_SHELL_13_CUMULATIVE;

// ---------------------------------------------------------------------------
// Reading counts off `(value, count)` pairs
// ---------------------------------------------------------------------------
/// The count paired with `v` (the last such pair), or 0.
pub open spec fn pair_lookup(s: Seq<(u8, u8)>, v: u8) -> int
    decreases s.len(),
{
    if s.len() == 0 {
        0
    } else if s.last().0 == v {
        s.last().1 as int
    } else {
        pair_lookup(s.drop_last(), v)
    }
}

pub open spec fn int_lookup(s: Seq<(int, int)>, v: int) -> int
    decreases s.len(),
{
    if s.len() == 0 {
        0
    } else if s.last().0 == v {
        s.last().1
    } else {
        int_lookup(s.drop_last(), v)
    }
}

proof fn lemma_int_lookup_absent(s: Seq<(int, int)>, v: int)
    requires
        forall|j: int| 0 <= j < s.len() ==> (#[trigger] s[j]).0 != v,
    ensures
        int_lookup(s, v) == 0,
    decreases s.len(),
{
    if s.len() > 0 {
        lemma_int_lookup_absent(s.drop_last(), v);
    }
}

/// Dropping the zero counts keeps every lookup.
proof fn lemma_lookup_nz(s: Seq<(int, int)>, v: int)
    requires
        0 <= v < 256,
        forall|j: int| 0 <= j < s.len() ==> 0 <= (#[trigger] s[j]).0 < 256 && 0 <= s[j].1 < 256,
        forall|i: int, j: int| 0 <= i < j < s.len() ==> (#[trigger] s[i]).0 != (#[trigger] s[j]).0,
    ensures
        pair_lookup(crate::classes::nz_pairs(s), v as u8) == int_lookup(s, v),
    decreases s.len(),
{
    if s.len() > 0 {
        let r = s.drop_last();
        assert forall|j: int| 0 <= j < r.len() implies 0 <= (#[trigger] r[j]).0 < 256 && 0 <= r[j].1
            < 256 by {
            assert(s[j] == r[j]);
        }
        assert forall|i: int, j: int| 0 <= i < j < r.len() implies (#[trigger] r[i]).0 != (
        #[trigger] r[j]).0 by {
            assert(s[i] == r[i] && s[j] == r[j]);
        }
        lemma_lookup_nz(r, v);
        let p = s.last();
        let nr = crate::classes::nz_pairs(r);
        if p.1 > 0 {
            let q = (p.0 as u8, p.1 as u8);
            assert(crate::classes::nz_pairs(s) == nr.push(q));
            assert(nr.push(q).drop_last() =~= nr);
            assert((q.0 == v as u8) == (p.0 == v));
        } else {
            assert(crate::classes::nz_pairs(s) == nr);
            if p.0 == v {
                assert forall|j: int| 0 <= j < r.len() implies (#[trigger] r[j]).0 != v by {
                    assert(s[j] == r[j]);
                    assert(s[j].0 != s[s.len() - 1].0);
                }
                lemma_int_lookup_absent(r, v);
            }
        }
    }
}

/// The count of value `v` among the pairs.
fn pair_count(pairs: &Vec<(u8, u8)>, v: u8) -> (r: u8)
    ensures
        r == pair_lookup(pairs@, v),
{
    let mut i: usize = pairs.len();
    proof {
        assert(pairs@.subrange(0, i as int) =~= pairs@);
    }
    while i > 0
        invariant
            i <= pairs.len(),
            pair_lookup(pairs@, v) == pair_lookup(pairs@.subrange(0, i as int), v),
        decreases i,
    {
        let p = pairs[i - 1];
        proof {
            let s = pairs@.subrange(0, i as int);
            assert(s.drop_last() =~= pairs@.subrange(0, i - 1));
            assert(s.last() == p);
        }
        if p.0 == v {
            return p.1;
        }
        i = i - 1;
    }
    0
}


// ---------------------------------------------------------------------------
// Classes as laid out in the index
// ---------------------------------------------------------------------------
/// Upper bound on the point count of one class (`2^84`).
pub const CARD_BOUND: u128 = 0x1000_0000_0000_0000_0000_00;

/// Word kind counts `[n14, n10, n6, n2]` of an even count vector.
pub open spec fn even_ca(d: Seq<int>) -> Seq<int> {
    seq![d[0], d[1], d[2], d[3]]
}

/// Off-support kind counts `[n12, n8, n4, n0]`.
pub open spec fn even_cb(d: Seq<int>) -> Seq<int> {
    seq![d[4], d[5], d[6], 24 - even_w(d) - even_free_n(d)]
}

/// Kind counts `[n13, n11, …, n3, n1]` of an odd count vector.
pub open spec fn odd_ca(d: Seq<int>) -> Seq<int> {
    seq![d[0], d[1], d[2], d[3], d[4], d[5], odd_n1(d)]
}

/// One class of the layout.
struct ClassIx {
    shell: u32,
    odd: bool,
    /// Word kind counts (even) or value kind counts (odd).
    ca: Vec<u8>,
    /// Off-support kind counts (even only).
    cb: Vec<u8>,
    w: u32,
    free_n: u32,
    p_req: u32,
    a_on: u128,
    a_off: u128,
    s_w: u128,
    s_f: u128,
    offset: u128,
    card: u128,
    /// The class count vector.
    d: Ghost<Seq<int>>,
}

spec fn class_wf(c: ClassIx) -> bool {
    &&& 1 <= c.card <= CARD_BOUND
    &&& if !c.odd {
        &&& even_valid(c.d@, 13)
        &&& u8_counts(c.ca@) == even_ca(c.d@)
        &&& u8_counts(c.cb@) == even_cb(c.d@)
        &&& c.w == even_w(c.d@)
        &&& c.free_n == even_free_n(c.d@)
        &&& c.p_req == even_p_req(c.d@)
        &&& c.shell == even_norm(c.d@) / 16
        &&& c.a_on == mult(even_ca(c.d@))
        &&& c.a_off == mult(even_cb(c.d@))
        &&& c.s_w == (if c.w == 0 {
            1
        } else {
            pow2(c.w - 1)
        })
        &&& c.s_f == pow2(c.free_n as int)
        &&& c.card == weight_distribution(c.w as int) * c.a_on * c.a_off * c.s_w * c.s_f
    } else {
        &&& odd_valid(c.d@, 13)
        &&& u8_counts(c.ca@) == odd_ca(c.d@)
        &&& c.shell == odd_norm(c.d@) / 16
        &&& c.a_on == mult(odd_ca(c.d@))
        &&& c.card == 4096 * c.a_on
    }
}

/// Box position of the class's count vector.
spec fn class_pos(c: ClassIx) -> int {
    if c.odd {
        odd_pos(c.d@)
    } else {
        even_pos(c.d@)
    }
}

/// The layout order: shell, then even before odd, then enumeration order.
spec fn class_lt(a: ClassIx, b: ClassIx) -> bool {
    ||| a.shell < b.shell
    ||| a.shell == b.shell && !a.odd && b.odd
    ||| a.shell == b.shell && a.odd == b.odd && class_pos(a) < class_pos(b)
}

proof fn lemma_pow_add(b: int, e1: int, e2: int)
    requires
        b >= 0,
        e1 >= 0,
        e2 >= 0,
    ensures
        pow(b, e1 + e2) == pow(b, e1) * pow(b, e2),
    decreases e2,
{
    if e2 > 0 {
        lemma_pow_add(b, e1, e2 - 1);
        let x = pow(b, e1);
        let y = pow(b, e2 - 1);
        assert(b * (x * y) == x * (b * y)) by (nonlinear_arith);
    }
}

proof fn lemma_pow_consts()
    ensures
        pow(4, 24) == 0x1_0000_0000_0000,
        pow(2, 24) == 0x100_0000,
{
    reveal_with_fuel(pow, 25);
}

/// The class of an even count vector, placed at `offset`.
fn even_class_ix(c: &EvenClass, d: Ghost<Seq<int>>, offset: u128) -> (r: ClassIx)
    requires
        even_class_is(*c, d@),
        even_valid(d@, 13),
    ensures
        class_wf(r),
        !r.odd,
        r.d == d,
        r.offset == offset,
        r.shell == c.shell,
{
    let ghost dd = d@;
    proof {
        let ws = seq![(14int, dd[0]), (10int, dd[1]), (6int, dd[2]), (2int, dd[3])];
        let fs = seq![(12int, dd[4]), (8int, dd[5]), (4int, dd[6])];
        assert(0 <= dd[0] && 0 <= dd[1] && 0 <= dd[2] && 0 <= dd[3] && 0 <= dd[4] && 0 <= dd[5]
            && 0 <= dd[6]) by {
            assert(0 <= dd[0] && 0 <= dd[1] && 0 <= dd[2] && 0 <= dd[3]);
            assert(0 <= dd[4] && 0 <= dd[5] && 0 <= dd[6]);
        }
        lemma_lookup_nz(ws, 14);
        lemma_lookup_nz(ws, 10);
        lemma_lookup_nz(ws, 6);
        lemma_lookup_nz(ws, 2);
        lemma_lookup_nz(fs, 12);
        lemma_lookup_nz(fs, 8);
        lemma_lookup_nz(fs, 4);
        reveal_with_fuel(int_lookup, 5);
    }
    let n14 = pair_count(&c.word_vals, 14);
    let n10 = pair_count(&c.word_vals, 10);
    let n6 = pair_count(&c.word_vals, 6);
    let n2 = pair_count(&c.word_vals, 2);
    let n12 = pair_count(&c.free_vals, 12);
    let n8 = pair_count(&c.free_vals, 8);
    let n4 = pair_count(&c.free_vals, 4);
    assert(n14 == dd[0] && n10 == dd[1] && n6 == dd[2] && n2 == dd[3]);
    assert(n12 == dd[4] && n8 == dd[5] && n4 == dd[6]);
    let w: u32 = c.w;
    let free_n: u32 = n12 as u32 + n8 as u32 + n4 as u32;
    let n0: u8 = (24 - w - free_n) as u8;
    let ca: Vec<u8> = vec![n14, n10, n6, n2];
    let cb: Vec<u8> = vec![n12, n8, n4, n0];
    proof {
        assert(u8_counts(ca@) =~= even_ca(dd));
        assert(u8_counts(cb@) =~= even_cb(dd));
        reveal_with_fuel(total, 5);
        assert(total(even_ca(dd)) == w);
        assert(total(even_cb(dd)) == 24 - w);
    }
    let a_on = multinomial(ca.as_slice());
    let a_off = multinomial(cb.as_slice());
    let s_w: u128 = if w == 0 {
        1
    } else {
        pow2_exec(w - 1)
    };
    let s_f = pow2_exec(free_n);
    let g = gamma(w) as u128;
    proof {
        lemma_mult_pos(even_ca(dd));
        lemma_mult_pos(even_cb(dd));
        lemma_mult_pow_bound(even_ca(dd));
        lemma_mult_pow_bound(even_cb(dd));
        lemma_pow_add(4, w as int, 24 - w);
        lemma_pow_consts();
        lemma_pow_nonneg(4, w as int);
        lemma_pow_nonneg(4, 24 - w);
        let sw_e: int = if w == 0 { 0 } else { w - 1 };
        lemma_pow_add(2, sw_e, free_n as int);
        lemma_pow_mono(2, sw_e + free_n, 24);
        assert(pow2(0) == 1);
        assert(s_w == pow2(sw_e));
        assert(1 <= g <= 4096) by {
            crate::golay::lemma_weight_counts(w as int);
        }
        let p4a = pow(4, w as int);
        let p4b = pow(4, 24 - w);
        assert(a_on * a_off <= 0x1_0000_0000_0000) by (nonlinear_arith)
            requires
                1 <= a_on <= p4a,
                1 <= a_off <= p4b,
                p4a * p4b == 0x1_0000_0000_0000,
        ;
        assert(1 <= s_w * s_f <= 0x100_0000) by (nonlinear_arith)
            requires
                s_w * s_f == pow(2, sw_e + free_n),
                pow(2, sw_e + free_n) <= 0x100_0000,
                1 <= s_w,
                1 <= s_f,
        ;
        let ab = a_on * a_off;
        let ss = s_w * s_f;
        assert(1 <= g * a_on * a_off * s_w * s_f <= CARD_BOUND) by (nonlinear_arith)
            requires
                1 <= g <= 4096,
                1 <= a_on,
                1 <= a_off,
                ab == a_on * a_off,
                ab <= 0x1_0000_0000_0000,
                ss == s_w * s_f,
                1 <= ss <= 0x100_0000,
                1 <= s_w,
                1 <= s_f,
        ;
        assert(g * a_on <= 4096 * 0x1_0000_0000_0000) by (nonlinear_arith)
            requires
                1 <= g <= 4096,
                1 <= a_on,
                1 <= a_off,
                a_on * a_off <= 0x1_0000_0000_0000,
        ;
        assert(g * a_on * a_off <= 4096 * 0x1_0000_0000_0000) by (nonlinear_arith)
            requires
                1 <= g <= 4096,
                a_on * a_off <= 0x1_0000_0000_0000,
                1 <= a_on,
        ;
        assert(g * a_on * a_off * s_w <= CARD_BOUND) by (nonlinear_arith)
            requires
                1 <= g,
                1 <= a_on,
                1 <= a_off,
                1 <= s_f,
                g * a_on * a_off * s_w * s_f <= CARD_BOUND,
        ;
    }
    let card = g * a_on * a_off * s_w * s_f;
    ClassIx {
        shell: c.shell,
        odd: false,
        ca,
        cb,
        w,
        free_n,
        p_req: c.p_req as u32,
        a_on,
        a_off,
        s_w,
        s_f,
        offset,
        card,
        d,
    }
}


/// The class of an odd count vector, placed at `offset`.
fn odd_class_ix(c: &OddClass, d: Ghost<Seq<int>>, offset: u128) -> (r: ClassIx)
    requires
        odd_class_is(*c, d@),
        odd_valid(d@, 13),
    ensures
        class_wf(r),
        r.odd,
        r.d == d,
        r.offset == offset,
        r.shell == c.shell,
{
    let ghost dd = d@;
    proof {
        let vs = seq![
            (13int, dd[0]),
            (11int, dd[1]),
            (9int, dd[2]),
            (7int, dd[3]),
            (5int, dd[4]),
            (3int, dd[5]),
            (1int, odd_n1(dd)),
        ];
        assert(0 <= dd[0] && 0 <= dd[1] && 0 <= dd[2] && 0 <= dd[3] && 0 <= dd[4] && 0 <= dd[5])
            by {
            assert(0 <= dd[0] && 0 <= dd[1] && 0 <= dd[2]);
            assert(0 <= dd[3] && 0 <= dd[4] && 0 <= dd[5]);
        }
        lemma_lookup_nz(vs, 13);
        lemma_lookup_nz(vs, 11);
        lemma_lookup_nz(vs, 9);
        lemma_lookup_nz(vs, 7);
        lemma_lookup_nz(vs, 5);
        lemma_lookup_nz(vs, 3);
        lemma_lookup_nz(vs, 1);
        reveal_with_fuel(int_lookup, 8);
    }
    let n13 = pair_count(&c.vals, 13);
    let n11 = pair_count(&c.vals, 11);
    let n9 = pair_count(&c.vals, 9);
    let n7 = pair_count(&c.vals, 7);
    let n5 = pair_count(&c.vals, 5);
    let n3 = pair_count(&c.vals, 3);
    let n1 = pair_count(&c.vals, 1);
    let ca: Vec<u8> = vec![n13, n11, n9, n7, n5, n3, n1];
    proof {
        assert(u8_counts(ca@) =~= odd_ca(dd));
        reveal_with_fuel(total, 8);
        assert(total(odd_ca(dd)) == 24);
        crate::combin::lemma_pow8_24();
    }
    let a_on = multinomial(ca.as_slice());
    proof {
        lemma_mult_pos(odd_ca(dd));
    }
    ClassIx {
        shell: c.shell,
        odd: true,
        ca,
        cb: Vec::new(),
        w: 0,
        free_n: 0,
        p_req: 0,
        a_on,
        a_off: 1,
        s_w: 1,
        s_f: 1,
        offset,
        card: 4096 * a_on,
        d,
    }
}


// ---------------------------------------------------------------------------
// The layout invariants
// ---------------------------------------------------------------------------
/// The number of points of the even class with count vector `d`.
pub open spec fn even_card(d: Seq<int>) -> int {
    weight_distribution(even_w(d)) * mult(even_ca(d)) * mult(even_cb(d)) * (if even_w(d) == 0 {
        1
    } else {
        pow2(even_w(d) - 1)
    }) * pow2(even_free_n(d))
}

/// The number of points of the odd class with count vector `d`.
pub open spec fn odd_card(d: Seq<int>) -> int {
    4096 * mult(odd_ca(d))
}

/// Points of the even classes of shell `m` among the first `n` listed.
pub open spec fn even_shell_sum(m: int, n: int) -> int
    decreases n,
{
    if n <= 0 {
        0
    } else {
        let d = even_list(EVEN_BOX as int, 13)[n - 1];
        even_shell_sum(m, n - 1) + if even_norm(d) / 16 == m {
            even_card(d)
        } else {
            0
        }
    }
}

/// Points of the odd classes of shell `m` among the first `n` listed.
pub open spec fn odd_shell_sum(m: int, n: int) -> int
    decreases n,
{
    if n <= 0 {
        0
    } else {
        let d = odd_list(ODD_BOX as int, 13)[n - 1];
        odd_shell_sum(m, n - 1) + if odd_norm(d) / 16 == m {
            odd_card(d)
        } else {
            0
        }
    }
}

/// Points of the classes of the shells `2 .. m`, by the cardinality
/// formulas of the enumerated classes.
pub open spec fn shells_sum(m: int) -> int
    decreases m,
{
    if m <= 2 {
        0
    } else {
        shells_sum(m - 1) + even_shell_sum(m - 1, even_list(EVEN_BOX as int, 13).len() as int)
            + odd_shell_sum(m - 1, odd_list(ODD_BOX as int, 13).len() as int)
    }
}

/// The number of points of the shells `2 ..= 13` by the class formulas:
/// the total that the index layout covers.
pub open spec fn layout_total() -> int {
    shells_sum(14)
}

/// Upper bound on the number of classes.
pub const MAX_CLASSES: usize = 3_000_000;

/// Classes are consistent, laid end to end from 0 up to `total`, and sorted.
spec fn layout_ok(cls: Seq<ClassIx>, total: int) -> bool {
    &&& cls.len() <= MAX_CLASSES
    &&& total <= cls.len() * CARD_BOUND
    &&& forall|k: int| 0 <= k < cls.len() ==> class_wf(#[trigger] cls[k])
    &&& forall|k: int| 0 <= k < cls.len() ==> #[trigger] cls[k].offset + cls[k].card <= total
    &&& (cls.len() == 0 ==> total == 0)
    &&& (cls.len() > 0 ==> cls[0].offset == 0 && cls.last().offset + cls.last().card == total)
    &&& forall|k: int|
        0 <= k < cls.len() - 1 ==> #[trigger] cls[k + 1].offset == cls[k].offset + cls[k].card
    &&& forall|k1: int, k2: int|
        0 <= k1 < k2 < cls.len() ==> class_lt(#[trigger] cls[k1], #[trigger] cls[k2]) && cls[k1].offset
            + cls[k1].card <= cls[k2].offset
}

/// Each class lies in its shell's block: at or after the points of the
/// smaller shells, and within `bound` (the end of the block for the shells
/// below `m`).
spec fn blocks_below(cls: Seq<ClassIx>, m: int, bound: int) -> bool {
    forall|k: int|
        0 <= k < cls.len() ==> shells_sum((#[trigger] cls[k]).shell as int) <= cls[k].offset
            && cls[k].offset + cls[k].card <= (if cls[k].shell < m {
            shells_sum(cls[k].shell + 1)
        } else {
            bound
        })
}

/// Every class of a valid count vector is in the layout.
spec fn layout_complete(cls: Seq<ClassIx>) -> bool {
    &&& forall|d: Seq<int>|
        #[trigger] even_valid(d, 13) ==> exists|k: int|
            0 <= k < cls.len() && !(#[trigger] cls[k]).odd && cls[k].d@ == d
    &&& forall|d: Seq<int>|
        #[trigger] odd_valid(d, 13) ==> exists|k: int|
            0 <= k < cls.len() && (#[trigger] cls[k]).odd && cls[k].d@ == d
}

spec fn even_shell(d: Seq<int>) -> int {
    even_norm(d) / 16
}

spec fn odd_shell(d: Seq<int>) -> int {
    odd_norm(d) / 16
}

/// While placing the even classes of shell `m`: everything placed comes
/// before the even classes `el[e..]`.
spec fn phase_even(cls: Seq<ClassIx>, m: int, el: Seq<Seq<int>>, e: int) -> bool {
    forall|k: int|
        0 <= k < cls.len() ==> (#[trigger] cls[k]).shell < m || (cls[k].shell == m && !cls[k].odd
            && forall|e2: int| e <= e2 < el.len() ==> even_pos(cls[k].d@) < #[trigger] even_pos(el[e2]))
}

/// While placing the odd classes of shell `m`.
spec fn phase_odd(cls: Seq<ClassIx>, m: int, ol: Seq<Seq<int>>, o: int) -> bool {
    forall|k: int|
        0 <= k < cls.len() ==> (#[trigger] cls[k]).shell < m || (cls[k].shell == m && (!cls[k].odd
            || forall|o2: int| o <= o2 < ol.len() ==> odd_pos(cls[k].d@) < #[trigger] odd_pos(ol[o2])))
}

/// The even classes of shells below `m`, and of shell `m` before `e`, are placed at `we`.
spec fn placed_even(cls: Seq<ClassIx>, we: Seq<int>, el: Seq<Seq<int>>, m: int, e: int) -> bool {
    &&& we.len() == el.len()
    &&& forall|e2: int|
        0 <= e2 < el.len() && (even_shell(el[e2]) < m || (even_shell(el[e2]) == m && e2 < e))
            ==> 0 <= #[trigger] we[e2] < cls.len() && !cls[we[e2]].odd && cls[we[e2]].d@ == el[e2]
}

spec fn placed_odd(cls: Seq<ClassIx>, wo: Seq<int>, ol: Seq<Seq<int>>, m: int, o: int) -> bool {
    &&& wo.len() == ol.len()
    &&& forall|o2: int|
        0 <= o2 < ol.len() && (odd_shell(ol[o2]) < m || (odd_shell(ol[o2]) == m && o2 < o))
            ==> 0 <= #[trigger] wo[o2] < cls.len() && cls[wo[o2]].odd && cls[wo[o2]].d@ == ol[o2]
}

proof fn lemma_list_len(t: int, ms: int)
    requires
        0 <= t,
    ensures
        even_list(t, ms).len() <= t,
        odd_list(t, ms).len() <= t,
    decreases t,
{
    if t > 0 {
        lemma_list_len(t - 1, ms);
    }
}

/// Encoder and decoder for the ball `Λ24(13) ∪ {0}`.
pub struct Indexer {
    classes: Vec<ClassIx>,
    total: u128,
    leech: Leech,
}

impl Indexer {
    pub closed spec fn wf(&self) -> bool {
        &&& self.leech.wf()
        &&& layout_ok(self.classes@, self.total as int)
        &&& layout_complete(self.classes@)
        &&& blocks_below(self.classes@, 14, self.total as int)
    }

    /// The number of non-origin points the layout covers.
    pub closed spec fn total(&self) -> int {
        self.total as int
    }

    /// Builds the layout of every class of the shells `2 ..= 13`, in layout
    /// order, and returns it when it covers exactly `N(13)` points (the
    /// cumulative count of the shells `2 ..= 13`); `None` otherwise.
    pub fn new() -> (r: Option<Self>)
        ensures
            r is Some <==> layout_total() == N13 as int,
            r matches Some(ix) ==> ix.wf() && ix.total() == N13 as int,
    {
        let ix = Self::build();
        if ix.total == N13 as u128 {
            Some(ix)
        } else {
            None
        }
    }

    /// The layout of every class of the shells `2 ..= 13`.
    #[verifier::rlimit(80)]
    fn build() -> (ix: Self)
        ensures
            ix.wf(),
            ix.total() == layout_total(),
    {
        let cs = enumerate_classes(MAX_SHELL);
        let ghost el = even_list(EVEN_BOX as int, 13);
        let ghost ol = odd_list(ODD_BOX as int, 13);
        proof {
            lemma_even_list(EVEN_BOX as int, 13);
            lemma_odd_list(ODD_BOX as int, 13);
            lemma_list_len(EVEN_BOX as int, 13);
            lemma_list_len(ODD_BOX as int, 13);
        }
        let mut classes: Vec<ClassIx> = Vec::new();
        let mut off: u128 = 0;
        let ghost mut we: Seq<int> = Seq::new(el.len(), |e: int| -1int);
        let ghost mut wo: Seq<int> = Seq::new(ol.len(), |o: int| -1int);
        let mut m: u32 = 2;
        while m <= MAX_SHELL
            invariant
                2 <= m <= 14,
                cs.even.len() == el.len() <= EVEN_BOX,
                cs.odd.len() == ol.len() <= ODD_BOX,
                forall|i: int| 0 <= i < el.len() ==> even_class_is(#[trigger] cs.even@[i], el[i]),
                forall|i: int| 0 <= i < ol.len() ==> odd_class_is(#[trigger] cs.odd@[i], ol[i]),
                forall|i: int| 0 <= i < el.len() ==> even_valid(#[trigger] el[i], 13),
                forall|i: int| 0 <= i < ol.len() ==> odd_valid(#[trigger] ol[i], 13),
                forall|i: int, j: int|
                    0 <= i < j < el.len() ==> even_pos(#[trigger] el[i]) < even_pos(#[trigger] el[j]),
                forall|i: int, j: int|
                    0 <= i < j < ol.len() ==> odd_pos(#[trigger] ol[i]) < odd_pos(#[trigger] ol[j]),
                layout_ok(classes@, off as int),
                off == shells_sum(m as int),
                blocks_below(classes@, m as int, off as int),
                el == even_list(EVEN_BOX as int, 13),
                ol == odd_list(ODD_BOX as int, 13),
                classes.len() <= (m - 2) * (EVEN_BOX + ODD_BOX),
                phase_even(classes@, m as int, el, 0),
                placed_even(classes@, we, el, m as int, 0),
                placed_odd(classes@, wo, ol, m as int, 0),
            decreases 14 - m,
        {
            let mut e: usize = 0;
            while e < cs.even.len()
                invariant
                    2 <= m <= 13,
                    e <= cs.even.len(),
                    cs.even.len() == el.len() <= EVEN_BOX,
                    cs.odd.len() == ol.len() <= ODD_BOX,
                    forall|i: int| 0 <= i < el.len() ==> even_class_is(#[trigger] cs.even@[i], el[i]),
                    forall|i: int| 0 <= i < el.len() ==> even_valid(#[trigger] el[i], 13),
                    forall|i: int, j: int|
                        0 <= i < j < el.len() ==> even_pos(#[trigger] el[i]) < even_pos(#[trigger] el[j]),
                    layout_ok(classes@, off as int),
                    off == shells_sum(m as int) + even_shell_sum(m as int, e as int),
                    shells_sum(m as int) <= off,
                    blocks_below(classes@, m as int, off as int),
                    el == even_list(EVEN_BOX as int, 13),
                    classes.len() <= (m - 2) * (EVEN_BOX + ODD_BOX) + e,
                    phase_even(classes@, m as int, el, e as int),
                    placed_even(classes@, we, el, m as int, e as int),
                    placed_odd(classes@, wo, ol, m as int, 0),
                decreases cs.even.len() - e,
            {
                proof {
                    let b = (EVEN_BOX + ODD_BOX) as int;
                    let mm = m as int;
                    assert((mm - 2) * b + e < MAX_CLASSES) by (nonlinear_arith)
                        requires
                            mm <= 13,
                            e < EVEN_BOX,
                            b == EVEN_BOX + ODD_BOX,
                    ;
                }
                if cs.even[e].shell == m {
                    let ghost old_cls = classes@;
                    let cl = even_class_ix(&cs.even[e], Ghost(el[e as int]), off);
                    proof {
                        assert(cs.even@[e as int].shell == even_shell(el[e as int]));
                    }
                    let ghost gcl = cl;
                    let ghost old_off = off as int;
                    off = off + cl.card;
                    classes.push(cl);
                    proof {
                        assert(gcl.card == even_card(el[e as int]));
                        assert(even_shell_sum(m as int, e as int + 1) == even_shell_sum(m as int, e as int) + even_card(el[e as int]));
                        we = we.update(e as int, old_cls.len() as int);
                        lemma_push_layout(old_cls, gcl, classes@, old_off);
                        assert forall|k: int| 0 <= k < classes@.len() implies (#[trigger] classes@[k]).shell < m || (classes@[k].shell == m && !classes@[k].odd
                            && forall|e2: int| e + 1 <= e2 < el.len() ==> even_pos(classes@[k].d@) < #[trigger] even_pos(el[e2])) by {
                            if k < old_cls.len() {
                                assert(classes@[k] == old_cls[k]);
                            }
                        }
                    }
                } else {
                    proof {
                        assert(cs.even@[e as int].shell == even_shell(el[e as int]));
                        assert(even_shell_sum(m as int, e as int + 1) == even_shell_sum(m as int, e as int));
                    }
                }
                e = e + 1;
            }
            proof {
                assert(phase_odd(classes@, m as int, ol, 0)) by {
                    assert forall|k: int| 0 <= k < classes@.len() implies (#[trigger] classes@[k]).shell < m || (classes@[k].shell == m && (!classes@[k].odd
                        || forall|o2: int| 0 <= o2 < ol.len() ==> odd_pos(classes@[k].d@) < #[trigger] odd_pos(ol[o2]))) by {}
                }
            }
            let mut o: usize = 0;
            while o < cs.odd.len()
                invariant
                    2 <= m <= 13,
                    o <= cs.odd.len(),
                    cs.even.len() == el.len() <= EVEN_BOX,
                    cs.odd.len() == ol.len() <= ODD_BOX,
                    forall|i: int| 0 <= i < ol.len() ==> odd_class_is(#[trigger] cs.odd@[i], ol[i]),
                    forall|i: int| 0 <= i < ol.len() ==> odd_valid(#[trigger] ol[i], 13),
                    forall|i: int, j: int|
                        0 <= i < j < ol.len() ==> odd_pos(#[trigger] ol[i]) < odd_pos(#[trigger] ol[j]),
                    layout_ok(classes@, off as int),
                    off == shells_sum(m as int) + even_shell_sum(m as int, el.len() as int)
                        + odd_shell_sum(m as int, o as int),
                    shells_sum(m as int) <= off,
                    blocks_below(classes@, m as int, off as int),
                    el == even_list(EVEN_BOX as int, 13),
                    ol == odd_list(ODD_BOX as int, 13),
                    classes.len() <= (m - 2) * (EVEN_BOX + ODD_BOX) + EVEN_BOX + o,
                    phase_odd(classes@, m as int, ol, o as int),
                    placed_even(classes@, we, el, m as int + 1, 0),
                    placed_odd(classes@, wo, ol, m as int, o as int),
                decreases cs.odd.len() - o,
            {
                proof {
                    let b = (EVEN_BOX + ODD_BOX) as int;
                    let mm = m as int;
                    assert((mm - 2) * b + EVEN_BOX + o < MAX_CLASSES) by (nonlinear_arith)
                        requires
                            mm <= 13,
                            o < ODD_BOX,
                            b == EVEN_BOX + ODD_BOX,
                    ;
                }
                if cs.odd[o].shell == m {
                    let ghost old_cls = classes@;
                    let cl = odd_class_ix(&cs.odd[o], Ghost(ol[o as int]), off);
                    proof {
                        assert(cs.odd@[o as int].shell == odd_shell(ol[o as int]));
                    }
                    let ghost gcl = cl;
                    let ghost old_off = off as int;
                    off = off + cl.card;
                    classes.push(cl);
                    proof {
                        assert(gcl.card == odd_card(ol[o as int]));
                        assert(odd_shell_sum(m as int, o as int + 1) == odd_shell_sum(m as int, o as int) + odd_card(ol[o as int]));
                        wo = wo.update(o as int, old_cls.len() as int);
                        lemma_push_layout(old_cls, gcl, classes@, old_off);
                    }
                } else {
                    proof {
                        assert(cs.odd@[o as int].shell == odd_shell(ol[o as int]));
                        assert(odd_shell_sum(m as int, o as int + 1) == odd_shell_sum(m as int, o as int));
                    }
                }
                o = o + 1;
            }
            proof {
                assert(shells_sum(m as int + 1) == shells_sum(m as int) + even_shell_sum(m as int, el.len() as int)
                    + odd_shell_sum(m as int, ol.len() as int));
                let b = (EVEN_BOX + ODD_BOX) as int;
                let mm = m as int;
                assert(classes.len() <= (mm - 1) * b) by (nonlinear_arith)
                    requires
                        classes.len() <= (mm - 2) * b + EVEN_BOX + ODD_BOX,
                        b == EVEN_BOX + ODD_BOX,
                ;
                assert(phase_even(classes@, m as int + 1, el, 0)) by {
                    assert forall|k: int| 0 <= k < classes@.len() implies (#[trigger] classes@[k]).shell < m + 1 by {}
                }
            }
            m = m + 1;
        }
        proof {
            assert(layout_complete(classes@)) by {
                assert forall|d: Seq<int>| #[trigger] even_valid(d, 13) implies exists|k: int|
                    0 <= k < classes@.len() && !(#[trigger] classes@[k]).odd && classes@[k].d@ == d by {
                    crate::classes::lemma_even_pos_digits(d);
                    crate::classes::lemma_even_valid_in_box(d, 13);
                    assert(el.contains(d));
                    let e2 = choose|e2: int| 0 <= e2 < el.len() && el[e2] == d;
                    assert(0 <= we[e2]);
                    let k = we[e2];
                    assert(!classes@[k].odd && classes@[k].d@ == d);
                }
                assert forall|d: Seq<int>| #[trigger] odd_valid(d, 13) implies exists|k: int|
                    0 <= k < classes@.len() && (#[trigger] classes@[k]).odd && classes@[k].d@ == d by {
                    crate::classes::lemma_odd_pos_digits(d);
                    crate::classes::lemma_odd_valid_in_box(d, 13);
                    assert(ol.contains(d));
                    let o2 = choose|o2: int| 0 <= o2 < ol.len() && ol[o2] == d;
                    assert(0 <= wo[o2]);
                    let k = wo[o2];
                    assert(classes@[k].odd && classes@[k].d@ == d);
                }
            }
        }
        Indexer { classes, total: off, leech: Leech::new() }
    }
}

/// Appending a class at the current end keeps the layout consistent.
proof fn lemma_push_layout(cls: Seq<ClassIx>, c: ClassIx, cls2: Seq<ClassIx>, total: int)
    requires
        layout_ok(cls, total),
        class_wf(c),
        c.offset == total,
        cls2 == cls.push(c),
        cls.len() < MAX_CLASSES,
        forall|k: int| 0 <= k < cls.len() ==> class_lt(#[trigger] cls[k], c),
    ensures
        layout_ok(cls2, total + c.card),
{
    assert forall|k1: int, k2: int| 0 <= k1 < k2 < cls2.len() implies class_lt(
        #[trigger] cls2[k1],
        #[trigger] cls2[k2],
    ) && cls2[k1].offset + cls2[k1].card <= cls2[k2].offset by {
        assert(cls2[k1] == cls[k1]);
        if k2 < cls.len() {
            assert(cls2[k2] == cls[k2]);
        } else {
            assert(cls2[k2] == c);
        }
    }
    assert forall|k: int| 0 <= k < cls2.len() - 1 implies #[trigger] cls2[k + 1].offset
        == cls2[k].offset + cls2[k].card by {
        assert(cls2[k] == cls[k]);
        if k + 1 < cls.len() {
            assert(cls2[k + 1] == cls[k + 1]);
        }
    }
    assert forall|k: int| 0 <= k < cls2.len() implies #[trigger] cls2[k].offset + cls2[k].card
        <= total + c.card by {
        if k < cls.len() {
            assert(cls2[k] == cls[k]);
        }
    }
    assert forall|k: int| 0 <= k < cls2.len() implies class_wf(#[trigger] cls2[k]) by {
        if k < cls.len() {
            assert(cls2[k] == cls[k]);
        }
    }
    assert(total + c.card <= cls2.len() * CARD_BOUND) by (nonlinear_arith)
        requires
            total <= cls.len() * CARD_BOUND,
            c.card <= CARD_BOUND,
            cls2.len() == cls.len() + 1,
    ;
}


// ---------------------------------------------------------------------------
// The index of a point
// ---------------------------------------------------------------------------
/// Rank of the codeword `c` among the codewords of its weight.
pub open spec fn weight_rank(gol: Golay, c: u32) -> int {
    choose|g: int| 0 <= g < gol.bucket(pc(c)).len() && gol.bucket(pc(c))[g] == c
}

/// Rank of the codeword `c` in the flat codeword list.
pub open spec fn flat_rank(gol: Golay, c: u32) -> int {
    choose|g: int| 0 <= g < 4096 && gol.words()[g] == c
}

/// The first `w − 1` word signs as a number.
pub open spec fn word_sign_code(x: Point, c: u32, w: int) -> int {
    if w == 0 {
        0
    } else {
        bv(on_signs(x, c).take(w - 1))
    }
}

spec fn class_matches(cl: ClassIx, x: Point) -> bool {
    &&& cl.odd == (par(x) == 1)
    &&& cl.d@ == if cl.odd {
        odd_counts(x)
    } else {
        even_counts(x)
    }
}

spec fn even_local(cl: ClassIx, g: int, r_on: int, r_off: int, r_sw: int, r_sf: int) -> int {
    (((g * cl.a_on + r_on) * cl.a_off + r_off) * cl.s_w + r_sw) * cl.s_f + r_sf
}

impl Indexer {
    /// Position of the class holding `x` in the layout.
    pub closed spec fn class_of(&self, x: Point) -> int {
        choose|k: int| 0 <= k < self.classes.len() && class_matches(self.classes@[k], x)
    }

    /// The index of a point of the ball: 0 for the origin, otherwise one
    /// plus the class offset plus the local index described above.
    pub closed spec fn index_of(&self, x: Point) -> int {
        if is_origin(x) {
            0
        } else {
            let cl = self.classes@[self.class_of(x)];
            let c = golay_word(x);
            let gol = self.leech.code();
            if !cl.odd {
                1 + cl.offset + even_local(
                    cl,
                    weight_rank(gol, c),
                    rank(on_kinds(x, c), even_ca(cl.d@)),
                    rank(off_kinds(x, c), even_cb(cl.d@)),
                    word_sign_code(x, c, cl.w as int),
                    bv(off_signs(x, c)),
                )
            } else {
                1 + cl.offset + flat_rank(gol, c) * cl.a_on + rank(all_kinds(x), odd_ca(cl.d@))
            }
        }
    }
}

/// `x = (x / R)·R + x % R` with the remainder in range, and the quotient
/// below `Q` when `x < Q·R`.
proof fn lemma_split(x: int, r: int, q: int)
    requires
        0 <= x < q * r,
        r > 0,
    ensures
        x == (x / r) * r + x % r,
        0 <= x % r < r,
        0 <= x / r < q,
{
    vstd::arithmetic::div_mod::lemma_fundamental_div_mod(x, r);
    vstd::arithmetic::div_mod::lemma_mod_bound(x, r);
    vstd::arithmetic::div_mod::lemma_div_pos_is_pos(x, r);
    let d = x / r;
    assert(d < q) by (nonlinear_arith)
        requires
            x == r * d + x % r,
            x % r >= 0,
            x < q * r,
            r > 0,
    ;
    assert(r * d == d * r) by (nonlinear_arith);
}

/// Mixed-radix composition: `q·R + r` with digits in range.
proof fn lemma_compose(q: int, r: int, rr: int, qq: int)
    requires
        0 <= r < rr,
        0 <= q < qq,
    ensures
        0 <= q * rr + r < qq * rr,
        (q * rr + r) / rr == q,
        (q * rr + r) % rr == r,
{
    assert(0 <= q * rr + r < qq * rr) by (nonlinear_arith)
        requires
            0 <= r < rr,
            0 <= q < qq,
    ;
    vstd::arithmetic::div_mod::lemma_fundamental_div_mod_converse(q * rr + r, rr, q, r);
}


/// Facts about the count vector of an even class.
proof fn lemma_even_class_counts(d: Seq<int>)
    requires
        even_valid(d, 13),
    ensures
        nonneg(even_ca(d)),
        nonneg(even_cb(d)),
        total(even_ca(d)) == even_w(d),
        total(even_cb(d)) == 24 - even_w(d),
        0 <= even_free_n(d),
        even_w(d) + even_free_n(d) <= 24,
        0 <= d[0] && 0 <= d[1] && 0 <= d[2] && 0 <= d[3] && 0 <= d[4] && 0 <= d[5] && 0 <= d[6],
        even_s0(d) % 4 == 0,
{
    assert(0 <= d[0] && 0 <= d[1] && 0 <= d[2] && 0 <= d[3] && 0 <= d[4] && 0 <= d[5] && 0 <= d[6])
        by {
        assert(0 <= d[0] && 0 <= d[1] && 0 <= d[2] && 0 <= d[3]);
        assert(0 <= d[4] && 0 <= d[5] && 0 <= d[6]);
    }
    reveal_with_fuel(total, 5);
}

/// The arrangements of the point built from an even class's arrangements.
proof fn lemma_even_point_shape(
    p: Point,
    c: u32,
    d: Seq<int>,
    ao: Seq<int>,
    af: Seq<int>,
    so: Seq<int>,
    sf: Seq<int>,
)
    requires
        even_valid(d, 13),
        is_codeword(c),
        pc(c) == even_w(d),
        has_counts(ao, even_ca(d)),
        has_counts(af, even_cb(d)),
        so.len() == even_w(d),
        bits01(so),
        sf.len() == even_free_n(d),
        bits01(sf),
        forall|i: int| 0 <= i < 24 ==> #[trigger] p[i] == even_coord(c, ao, af, so, sf, i),
    ensures
        on_kinds(p, c) == ao,
        off_kinds(p, c) == af,
        on_signs(p, c) == so,
        off_signs(p, c) == sf,
        forall|i: int| 0 <= i < 24 ==> -15 < #[trigger] p[i] < 15,
        forall|i: int| 0 <= i < 24 ==> #[trigger] absv(p[i] as int) % 2 == 0,
        forall|i: int|
            0 <= i < 24 ==> (bit(c, i as u32) == 1) == (#[trigger] absv(p[i] as int) % 4 == 2),
        c < 0x100_0000,
{
    let ca = even_ca(d);
    let cb = even_cb(d);
    lemma_codeword_facts(c);
    lemma_even_class_counts(d);
    lemma_rank_bound(ao, ca);
    lemma_rank_bound(af, cb);
    lemma_has_counts_range(ao, ca);
    lemma_has_counts_range(af, cb);
    lemma_nzc_occ(af, af.len() as int);
    lemma_counts_occ(af, cb, 3);
    lemma_even_arr_build(p, c, ao, af, so, sf);
}

/// The count vector and norm of that point.
proof fn lemma_even_point_counts(p: Point, c: u32, d: Seq<int>)
    requires
        even_valid(d, 13),
        has_counts(on_kinds(p, c), even_ca(d)),
        has_counts(off_kinds(p, c), even_cb(d)),
        forall|i: int| 0 <= i < 24 ==> -15 < #[trigger] p[i] < 15,
        forall|i: int| 0 <= i < 24 ==> #[trigger] absv(p[i] as int) % 2 == 0,
        forall|i: int|
            0 <= i < 24 ==> (bit(c, i as u32) == 1) == (#[trigger] absv(p[i] as int) % 4 == 2),
    ensures
        even_counts(p) == d,
        norm(p) == even_norm(d),
        h_abs(hist(p)) == even_s0(d),
{
    let ca = even_ca(d);
    let cb = even_cb(d);
    let ao = on_kinds(p, c);
    let af = off_kinds(p, c);
    assert forall|kk: int| 0 <= kk < 4 implies #[trigger] hist(p)[wval(kk)] == ca[kk] && hist(
        p,
    )[oval(kk)] == cb[kk] by {
        lemma_even_occ(p, c, kk);
        lemma_counts_occ(ao, ca, kk);
        lemma_counts_occ(af, cb, kk);
    }
    assert(hist(p)[wval(0)] == ca[0] && hist(p)[wval(1)] == ca[1] && hist(p)[wval(2)] == ca[2]
        && hist(p)[wval(3)] == ca[3]);
    assert(hist(p)[oval(0)] == cb[0] && hist(p)[oval(1)] == cb[1] && hist(p)[oval(2)] == cb[2]
        && hist(p)[oval(3)] == cb[3]);
    assert forall|v: int| 0 <= v < 16 && v % 2 == 1 implies #[trigger] hist(p)[v] == 0 by {
        assert forall|i: int| 0 <= i < 24 implies #[trigger] absv(p[i] as int) != v by {
            assert(absv(p[i] as int) % 2 == 0);
        }
        lemma_hist_absent(p, v);
    }
    let h = hist(p);
    assert(h[1] == 0 && h[3] == 0 && h[5] == 0 && h[7] == 0 && h[9] == 0 && h[11] == 0 && h[13]
        == 0 && h[15] == 0);
    assert(even_counts(p) =~= d);
    lemma_hist_norm(p);
    lemma_hist_abs_sum(p);
}

/// The point built from an even class's arrangements is a point of the
/// ball with that class's counts and those arrangements.
proof fn lemma_even_point(
    p: Point,
    c: u32,
    d: Seq<int>,
    ao: Seq<int>,
    af: Seq<int>,
    so: Seq<int>,
    sf: Seq<int>,
)
    requires
        even_valid(d, 13),
        is_codeword(c),
        pc(c) == even_w(d),
        has_counts(ao, even_ca(d)),
        has_counts(af, even_cb(d)),
        so.len() == even_w(d),
        bits01(so),
        even_w(d) > 0 ==> ssum(so) % 2 == even_p_req(d),
        sf.len() == even_free_n(d),
        bits01(sf),
        forall|i: int| 0 <= i < 24 ==> #[trigger] p[i] == even_coord(c, ao, af, so, sf, i),
    ensures
        on_kinds(p, c) == ao,
        off_kinds(p, c) == af,
        on_signs(p, c) == so,
        off_signs(p, c) == sf,
        golay_word(p) == c,
        par(p) == 0,
        even_counts(p) == d,
        norm(p) == even_norm(d),
        in_ball(p),
        !is_origin(p),
{
    let w = even_w(d);
    lemma_even_point_shape(p, c, d, ao, af, so, sf);
    lemma_even_point_counts(p, c, d);
    lemma_even_class_counts(d);
    // membership
    lemma_word_bits(p);
    assert forall|i: int| 0 <= i < 24 implies #[trigger] (p[i] as int) % 2 == 0 by {
        assert(absv(p[i] as int) % 2 == 0);
    }
    assert(par(p) == 0);
    assert forall|i: u32| i < 24 implies bit(golay_word(p), i) == bit(c, i) by {
        assert(absv(p[i as int] as int) % 2 == 0);
        assert((bit(c, i) == 1) == (absv(p[i as int] as int) % 4 == 2));
        crate::ball::lemma_pc_upto_step(c, i as int);
    }
    lemma_eq_by_bits(golay_word(p), c);
    lemma_even_sum_mod8(p, c);
    lemma_hist_abs_sum(p);
    lemma_neg_on_signs(p, c);
    let s0 = even_s0(d);
    let n = ssum(so);
    let cs = coord_sum(p);
    if w == 0 {
        assert(so =~= Seq::<int>::empty());
        assert(n == 0);
    }
    assert(n % 2 == (s0 / 4) % 2);
    assert(cs % 8 == 0) by (nonlinear_arith)
        requires
            (cs - s0 - 4 * n) % 8 == 0,
            s0 % 4 == 0,
            n % 2 == (s0 / 4) % 2,
    ;
    assert(is_member(p));
    lemma_origin_norm(p);
}


/// The low `n` bits of `r` (lowest first), and their parity.
fn low_bits(r: u128, n: u32) -> (res: (Vec<u8>, u8))
    requires
        n <= 24,
    ensures
        u8_counts(res.0@) == bitseq(r as int, n as int),
        bits01(u8_counts(res.0@)),
        res.1 as int == ssum(bitseq(r as int, n as int)) % 2,
        res.1 < 2,
{
    let mut v: Vec<u8> = Vec::new();
    let mut rem: u128 = r;
    let mut par: u8 = 0;
    let mut j: u32 = 0;
    proof {
        assert(pow2(0) == 1);
        assert(bitseq(r as int, 0) =~= Seq::<int>::empty());
        assert(u8_counts(v@) =~= Seq::<int>::empty());
    }
    while j < n
        invariant
            j <= n <= 24,
            u8_counts(v@) == bitseq(r as int, j as int),
            rem == (r as int) / pow2(j as int),
            par as int == ssum(bitseq(r as int, j as int)) % 2,
            par < 2,
        decreases n - j,
    {
        let b = (rem % 2) as u8;
        proof {
            lemma_pow2_facts(j as int);
            let bs = bitseq(r as int, j as int);
            assert(bitseq(r as int, j as int + 1) =~= bs.push(b as int));
            lemma_ssum_push(bs, b as int);
            vstd::arithmetic::div_mod::lemma_div_denominator(r as int, pow2(j as int), 2);
        }
        v.push(b);
        par = (par + b) % 2;
        rem = rem / 2;
        j = j + 1;
        proof {
            assert(u8_counts(v@) =~= bitseq(r as int, j as int));
        }
    }
    proof {
        assert forall|q: int| 0 <= q < u8_counts(v@).len() implies 0 <= #[trigger] u8_counts(v@)[q]
            < 2 by {}
    }
    (v, par)
}


/// The even point with support `c`, word kinds `ao`, off-support kinds `af`
/// and sign bits `so` (support) and `sf` (non-zero off-support values).
fn build_even(c: u32, ao: &Vec<u8>, af: &Vec<u8>, so: &Vec<u8>, sf: &Vec<u8>) -> (p: Point)
    requires
        ao.len() == pc_upto(c, 24),
        so.len() == pc_upto(c, 24),
        af.len() == 24 - pc_upto(c, 24),
        sf.len() == nzc(u8_counts(af@), af.len() as int),
        forall|j: int| 0 <= j < ao.len() ==> #[trigger] ao@[j] < 4,
        forall|j: int| 0 <= j < af.len() ==> #[trigger] af@[j] < 4,
    ensures
        forall|i: int|
            0 <= i < 24 ==> #[trigger] p[i] == even_coord(
                c,
                u8_counts(ao@),
                u8_counts(af@),
                u8_counts(so@),
                u8_counts(sf@),
                i,
            ),
{
    let ghost a_on = u8_counts(ao@);
    let ghost a_off = u8_counts(af@);
    let ghost s_on = u8_counts(so@);
    let ghost s_off = u8_counts(sf@);
    let mut p: Point = [0i32; 24];
    let mut on_s: usize = 0;
    let mut off_s: usize = 0;
    let mut fb: usize = 0;
    let mut i: usize = 0;
    proof {
        assert(pc_upto(c, 0) == 0);
    }
    while i < 24
        invariant
            i <= 24,
            ao.len() == pc_upto(c, 24),
            so.len() == pc_upto(c, 24),
            af.len() == 24 - pc_upto(c, 24),
            sf.len() == nzc(a_off, af.len() as int),
            forall|j: int| 0 <= j < ao.len() ==> #[trigger] ao@[j] < 4,
            forall|j: int| 0 <= j < af.len() ==> #[trigger] af@[j] < 4,
            a_on == u8_counts(ao@),
            a_off == u8_counts(af@),
            s_on == u8_counts(so@),
            s_off == u8_counts(sf@),
            on_s == pc_upto(c, i as u32),
            off_s == i - pc_upto(c, i as u32),
            fb == nzc(a_off, off_s as int),
            forall|j: int| 0 <= j < i ==> #[trigger] p[j] == even_coord(c, a_on, a_off, s_on, s_off, j),
            forall|j: int| i <= j < 24 ==> #[trigger] p[j] == 0,
        decreases 24 - i,
    {
        proof {
            lemma_pc_upto_step(c, i as int);
            lemma_pc_upto_mono(c, i as int + 1, 24);
            assert((i + 1) as u32 == (i as u32 + 1) as u32);
        }
        let ghost old_p = p;
        if (c >> (i as u32)) & 1 == 1 {
            let k = ao[on_s];
            let v: i32 = 14 - 4 * (k as i32);
            let neg = so[on_s] == 1;
            p[i] = if neg {
                -v
            } else {
                v
            };
            proof {
                assert(bit(c, i as u32) == 1);
                assert(on_slot(c, i as int) == on_s);
                assert(a_on[on_s as int] == k);
                assert(s_on[on_s as int] == so@[on_s as int]);
                assert(p[i as int] == even_coord(c, a_on, a_off, s_on, s_off, i as int));
            }
            on_s = on_s + 1;
        } else {
            let k = af[off_s];
            if k != 3 {
                proof {
                    lemma_nzc_mono(a_off, off_s as int + 1, af.len() as int);
                }
                let v: i32 = 12 - 4 * (k as i32);
                let neg = sf[fb] == 1;
                p[i] = if neg {
                    -v
                } else {
                    v
                };
                proof {
                    assert(bit(c, i as u32) == 0);
                    assert(off_slot(c, i as int) == off_s);
                    assert(a_off[off_s as int] == k);
                    assert(p[i as int] == even_coord(c, a_on, a_off, s_on, s_off, i as int));
                }
                fb = fb + 1;
            } else {
                proof {
                    assert(bit(c, i as u32) == 0);
                    assert(off_slot(c, i as int) == off_s);
                    assert(a_off[off_s as int] == 3);
                    assert(p[i as int] == 0);
                    assert(p[i as int] == even_coord(c, a_on, a_off, s_on, s_off, i as int));
                }
            }
            off_s = off_s + 1;
        }
        proof {
            assert forall|j: int| 0 <= j < i + 1 implies #[trigger] p[j] == even_coord(
                c,
                a_on,
                a_off,
                s_on,
                s_off,
                j,
            ) by {
                if j < i {
                    assert(p[j] == old_p[j]);
                }
            }
            assert forall|j: int| i + 1 <= j < 24 implies #[trigger] p[j] == 0 by {
                assert(p[j] == old_p[j]);
            }
        }
        i = i + 1;
    }
    p
}


/// A point matches at most one class of the layout.
proof fn lemma_class_unique(ix: &Indexer, x: Point, k: int)
    requires
        ix.wf(),
        0 <= k < ix.classes.len(),
        class_matches(ix.classes@[k], x),
    ensures
        ix.class_of(x) == k,
{
    let cls = ix.classes@;
    let k2 = ix.class_of(x);
    assert(0 <= k2 < cls.len() && class_matches(cls[k2], x));
    assert(class_wf(cls[k]) && class_wf(cls[k2]));
    if k2 < k {
        assert(class_lt(cls[k2], cls[k]));
    } else if k < k2 {
        assert(class_lt(cls[k], cls[k2]));
    }
}

/// The index of a point of an even class, from its digits.
proof fn lemma_even_index(
    ix: &Indexer,
    k: int,
    local: int,
    g: int,
    r_on: int,
    r_off: int,
    r_sw: int,
    r_sf: int,
    p: Point,
)
    requires
        ix.wf(),
        0 <= k < ix.classes.len(),
        !ix.classes@[k].odd,
        !is_origin(p),
        class_matches(ix.classes@[k], p),
        local == even_local(ix.classes@[k], g, r_on, r_off, r_sw, r_sf),
        is_codeword(golay_word(p)),
        0 <= g < ix.leech.code().bucket(pc(golay_word(p))).len(),
        ix.leech.code().bucket(pc(golay_word(p)))[g] == golay_word(p),
        rank(on_kinds(p, golay_word(p)), even_ca(ix.classes@[k].d@)) == r_on,
        rank(off_kinds(p, golay_word(p)), even_cb(ix.classes@[k].d@)) == r_off,
        word_sign_code(p, golay_word(p), ix.classes@[k].w as int) == r_sw,
        bv(off_signs(p, golay_word(p))) == r_sf,
    ensures
        ix.index_of(p) == 1 + ix.classes@[k].offset + local,
{
    lemma_class_unique(ix, p, k);
    let gol = ix.leech.code();
    let c = golay_word(p);
    let g2 = weight_rank(gol, c);
    assert(0 <= g2 < gol.bucket(pc(c)).len() && gol.bucket(pc(c))[g2] == c);
    ix.leech.lemma_code_wf();
    gol.lemma_bucket_index(c, g, g2);
}

/// The digits of a local index of an even class.
proof fn lemma_even_digits(cl: ClassIx, local: int)
    requires
        class_wf(cl),
        !cl.odd,
        0 <= local < cl.card,
    ensures
        cl.a_on >= 1,
        cl.a_off >= 1,
        cl.s_w >= 1,
        cl.s_f >= 1,
        ({
            let r_sf = local % (cl.s_f as int);
            let l3 = local / (cl.s_f as int);
            let r_sw = l3 % (cl.s_w as int);
            let l2 = l3 / (cl.s_w as int);
            let r_off = l2 % (cl.a_off as int);
            let l1 = l2 / (cl.a_off as int);
            let r_on = l1 % (cl.a_on as int);
            let g = l1 / (cl.a_on as int);
            &&& 0 <= r_sf < cl.s_f
            &&& 0 <= r_sw < cl.s_w
            &&& 0 <= r_off < cl.a_off
            &&& 0 <= r_on < cl.a_on
            &&& 0 <= g < weight_distribution(cl.w as int)
            &&& 0 <= l3 && 0 <= l2 && 0 <= l1
            &&& local == even_local(cl, g, r_on, r_off, r_sw, r_sf)
        }),
{
    let d = cl.d@;
    let gam = weight_distribution(cl.w as int);
    lemma_even_class_counts(d);
    lemma_mult_pos(even_ca(d));
    lemma_mult_pos(even_cb(d));
    lemma_pow2_facts(cl.free_n as int);
    if cl.w > 0 {
        lemma_pow2_facts(cl.w - 1);
    }
    let aa = cl.a_on as int;
    let bb = cl.a_off as int;
    let sw = cl.s_w as int;
    let sf = cl.s_f as int;
    let q4 = gam * aa * bb * sw;
    assert(local < q4 * sf);
    lemma_split(local, sf, q4);
    let l3 = local / sf;
    lemma_split(l3, sw, gam * aa * bb);
    let l2 = l3 / sw;
    lemma_split(l2, bb, gam * aa);
    let l1 = l2 / bb;
    lemma_split(l1, aa, gam);
}

/// The sign bits of the support: `w − 1` bits of `r_sw`, then the bit that
/// gives the required parity.
spec fn word_signs(r_sw: int, w: int, p_req: int) -> Seq<int> {
    if w == 0 {
        Seq::empty()
    } else {
        let b = bitseq(r_sw, w - 1);
        b.push(((ssum(b) % 2) + p_req) % 2)
    }
}

/// What decoding an even class produces.
proof fn lemma_even_decoded(
    ix: &Indexer,
    k: int,
    local: int,
    g: int,
    r_on: int,
    r_off: int,
    r_sw: int,
    r_sf: int,
    c: u32,
    a_on: Seq<int>,
    a_off: Seq<int>,
    p: Point,
)
    requires
        ix.wf(),
        0 <= k < ix.classes.len(),
        !ix.classes@[k].odd,
        local == even_local(ix.classes@[k], g, r_on, r_off, r_sw, r_sf),
        0 <= r_sw < ix.classes@[k].s_w,
        0 <= r_sf < ix.classes@[k].s_f,
        0 <= g < ix.leech.code().bucket(ix.classes@[k].w as int).len(),
        ix.leech.code().bucket(ix.classes@[k].w as int)[g] == c,
        has_counts(a_on, even_ca(ix.classes@[k].d@)),
        rank(a_on, even_ca(ix.classes@[k].d@)) == r_on,
        has_counts(a_off, even_cb(ix.classes@[k].d@)),
        rank(a_off, even_cb(ix.classes@[k].d@)) == r_off,
        forall|i: int|
            0 <= i < 24 ==> #[trigger] p[i] == even_coord(
                c,
                a_on,
                a_off,
                word_signs(r_sw, ix.classes@[k].w as int, ix.classes@[k].p_req as int),
                bitseq(r_sf, ix.classes@[k].free_n as int),
                i,
            ),
    ensures
        in_ball(p),
        !is_origin(p),
        ix.index_of(p) == 1 + ix.classes@[k].offset + local,
{
    let cl = ix.classes@[k];
    let d = cl.d@;
    let w = cl.w as int;
    assert(class_wf(cl));
    assert(is_codeword(c) && pc(c) == w) by {
        ix.leech.lemma_code_wf();
        ix.leech.code().lemma_wf();
        assert(ix.leech.code().bucket(w).contains(c));
    }
    let so = word_signs(r_sw, w, cl.p_req as int);
    let sf = bitseq(r_sf, cl.free_n as int);
    assert(bits01(so) && (w > 0 ==> ssum(so) % 2 == even_p_req(d)) && word_sign_code_of(so, w)
        == r_sw) by {
        lemma_sign_bits(r_sw, w, cl.p_req as int, cl.s_w as int);
    }
    assert(bits01(sf) && bv(sf) == r_sf) by {
        lemma_bv_bitseq(r_sf, cl.free_n as int);
        vstd::arithmetic::div_mod::lemma_small_mod(r_sf as nat, pow2(cl.free_n as int) as nat);
    }
    lemma_even_point(p, c, d, a_on, a_off, so, sf);
    assert(class_matches(cl, p));
    lemma_even_index(ix, k, local, g, r_on, r_off, r_sw, r_sf, p);
}

/// `word_sign_code` on the arrangement itself.
spec fn word_sign_code_of(so: Seq<int>, w: int) -> int {
    if w == 0 {
        0
    } else {
        bv(so.take(w - 1))
    }
}

proof fn lemma_sign_bits(r_sw: int, w: int, p_req: int, s_w: int)
    requires
        0 <= w <= 24,
        0 <= p_req < 2,
        s_w == (if w == 0 {
            1
        } else {
            pow2(w - 1)
        }),
        0 <= r_sw < s_w,
    ensures
        bits01(word_signs(r_sw, w, p_req)),
        word_signs(r_sw, w, p_req).len() == w,
        w > 0 ==> ssum(word_signs(r_sw, w, p_req)) % 2 == p_req,
        word_sign_code_of(word_signs(r_sw, w, p_req), w) == r_sw,
{
    let so = word_signs(r_sw, w, p_req);
    if w > 0 {
        let b = bitseq(r_sw, w - 1);
        assert(bits01(b));
        let last = ((ssum(b) % 2) + p_req) % 2;
        lemma_ssum_push(b, last);
        assert(bits01(so)) by {
            assert forall|j: int| 0 <= j < so.len() implies 0 <= #[trigger] so[j] < 2 by {
                if j < b.len() {
                    assert(so[j] == b[j]);
                }
            }
        }
        assert(so.take(w - 1) =~= b);
        lemma_bv_bitseq(r_sw, w - 1);
        vstd::arithmetic::div_mod::lemma_small_mod(r_sw as nat, pow2(w - 1) as nat);
    } else {
        assert(r_sw == 0);
    }
}

impl Indexer {
    /// Decodes `local` within the even class `k`.
    fn decode_even(&self, k: usize, local: u128) -> (p: Point)
        requires
            self.wf(),
            k < self.classes.len(),
            !self.classes@[k as int].odd,
            local < self.classes@[k as int].card,
        ensures
            in_ball(p),
            !is_origin(p),
            self.index_of(p) == 1 + self.classes@[k as int].offset + local,
    {
        let cls = &self.classes[k];
        let ghost d = cls.d@;
        proof {
            assert(class_wf(*cls));
            lemma_even_class_counts(d);
            lemma_even_digits(*cls, local as int);
            self.leech.lemma_code_wf();
        }
        let r_sf = local % cls.s_f;
        let l3 = local / cls.s_f;
        let r_sw = l3 % cls.s_w;
        let l2 = l3 / cls.s_w;
        let r_off = l2 % cls.a_off;
        let l1 = l2 / cls.a_off;
        let r_on = l1 % cls.a_on;
        let g = l1 / cls.a_on;
        let gol = self.leech.golay();
        let bucket = gol.of_weight(cls.w as usize);
        let c = bucket[g as usize];
        let ao = perm_unrank(r_on, cls.ca.as_slice());
        let af = perm_unrank(r_off, cls.cb.as_slice());
        let mut so: Vec<u8> = Vec::new();
        if cls.w > 0 {
            let (bits, par) = low_bits(r_sw, cls.w - 1);
            let last: u8 = (par + cls.p_req as u8) % 2;
            so = bits;
            let ghost b = u8_counts(so@);
            so.push(last);
            proof {
                assert(u8_counts(so@) =~= b.push(last as int));
            }
        } else {
            proof {
                assert(u8_counts(so@) =~= Seq::<int>::empty());
            }
        }
        assert(u8_counts(so@) == word_signs(r_sw as int, cls.w as int, cls.p_req as int));
        let (sf, _) = low_bits(r_sf, cls.free_n);
        proof {
            let a_on = u8_counts(ao@);
            let a_off = u8_counts(af@);
            lemma_codeword_facts(c);
            lemma_has_counts_range(a_on, even_ca(d));
            lemma_has_counts_range(a_off, even_cb(d));
            lemma_nzc_occ(a_off, a_off.len() as int);
            lemma_counts_occ(a_off, even_cb(d), 3);
            assert forall|j: int| 0 <= j < ao.len() implies #[trigger] ao@[j] < 4 by {
                assert(a_on[j] < 4);
            }
            assert forall|j: int| 0 <= j < af.len() implies #[trigger] af@[j] < 4 by {
                assert(a_off[j] < 4);
            }
        }
        let p = build_even(c, &ao, &af, &so, &sf);
        proof {
            lemma_even_decoded(
                self,
                k as int,
                local as int,
                g as int,
                r_on as int,
                r_off as int,
                r_sw as int,
                r_sf as int,
                c,
                u8_counts(ao@),
                u8_counts(af@),
                p,
            );
        }
        p
    }
}


/// Facts about the count vector of an odd class.
proof fn lemma_odd_class_counts(d: Seq<int>)
    requires
        odd_valid(d, 13),
    ensures
        nonneg(odd_ca(d)),
        total(odd_ca(d)) == 24,
        0 <= d[0] && 0 <= d[1] && 0 <= d[2] && 0 <= d[3] && 0 <= d[4] && 0 <= d[5],
        0 <= odd_n1(d),
{
    assert(0 <= d[0] && 0 <= d[1] && 0 <= d[2] && 0 <= d[3] && 0 <= d[4] && 0 <= d[5]) by {
        assert(0 <= d[0] && 0 <= d[1] && 0 <= d[2]);
        assert(0 <= d[3] && 0 <= d[4] && 0 <= d[5]);
    }
    reveal_with_fuel(total, 8);
}

/// The point built from an odd class's arrangement and a codeword.
proof fn lemma_odd_point(p: Point, c: u32, d: Seq<int>, aa: Seq<int>)
    requires
        odd_valid(d, 13),
        is_codeword(c),
        has_counts(aa, odd_ca(d)),
        forall|i: int| 0 <= i < 24 ==> #[trigger] p[i] == odd_coord(dval(aa[i]), bit(c, i as u32) == 1),
    ensures
        all_kinds(p) == aa,
        golay_word(p) == c,
        par(p) == 1,
        odd_counts(p) == d,
        norm(p) == odd_norm(d),
        in_ball(p),
        !is_origin(p),
{
    let ca = odd_ca(d);
    lemma_odd_class_counts(d);
    lemma_codeword_facts(c);
    lemma_rank_bound(aa, ca);
    lemma_has_counts_range(aa, ca);
    lemma_odd_arr_build(p, c, aa);
    lemma_odd_arr_parse(p, c);
    assert forall|kk: int| 0 <= kk < 7 implies #[trigger] hist(p)[dval(kk)] == ca[kk] by {
        lemma_counts_occ(aa, ca, kk);
    }
    assert(hist(p)[dval(0)] == ca[0] && hist(p)[dval(1)] == ca[1] && hist(p)[dval(2)] == ca[2]
        && hist(p)[dval(3)] == ca[3] && hist(p)[dval(4)] == ca[4] && hist(p)[dval(5)] == ca[5]
        && hist(p)[dval(6)] == ca[6]);
    assert forall|v: int| 0 <= v < 16 && (v % 2 == 0 || v == 15) implies #[trigger] hist(p)[v]
        == 0 by {
        assert forall|i: int| 0 <= i < 24 implies #[trigger] absv(p[i] as int) != v by {
            assert(absv(p[i] as int) % 2 == 1);
            assert(-15 < p[i] < 15);
        }
        lemma_hist_absent(p, v);
    }
    let h = hist(p);
    assert(h[0] == 0 && h[2] == 0 && h[4] == 0 && h[6] == 0 && h[8] == 0 && h[10] == 0 && h[12]
        == 0 && h[14] == 0 && h[15] == 0);
    assert(odd_counts(p) =~= d);
    lemma_hist_norm(p);
    lemma_hist_total(p);
    // membership
    lemma_word_bits(p);
    assert forall|i: int| 0 <= i < 24 implies #[trigger] (p[i] as int) % 2 == 1 by {
        assert(absv(p[i] as int) % 2 == 1);
    }
    assert(par(p) == 1);
    assert forall|i: u32| i < 24 implies bit(golay_word(p), i) == bit(c, i) by {
        crate::ball::lemma_pc_upto_step(c, i as int);
        assert(absv(p[i as int] as int) % 2 == 1);
        assert(p[i as int] == odd_coord(absv(p[i as int] as int), bit(c, i) == 1));
    }
    lemma_eq_by_bits(golay_word(p), c);
    assert forall|i: int| 0 <= i < 24 implies #[trigger] bit(c, i as u32) <= 1 by {
        crate::ball::lemma_pc_upto_step(c, i);
    }
    lemma_odd_sum_mod8(p, c);
    lemma_hist_g(p);
    let cs = coord_sum(p);
    let w = pc(c);
    let e = h[1] + h[7] + h[9];
    assert(e % 2 == 1);
    assert((h_g(h) + 4 * e) % 8 == 0);
    assert(w % 4 == 0);
    assert(cs % 8 == 4) by (nonlinear_arith)
        requires
            (cs - h_g(h) + 2 * w) % 8 == 0,
            w % 4 == 0,
            e % 2 == 1,
            (h_g(h) + 4 * e) % 8 == 0,
    ;
    assert(is_member(p));
    lemma_origin_norm(p);
}

/// What decoding an odd class produces.
proof fn lemma_odd_decoded(ix: &Indexer, k: int, local: int, g: int, r: int, c: u32, aa: Seq<int>, p: Point)
    requires
        ix.wf(),
        0 <= k < ix.classes.len(),
        ix.classes@[k].odd,
        local == g * ix.classes@[k].a_on + r,
        0 <= g < 4096,
        ix.leech.code().words()[g] == c,
        has_counts(aa, odd_ca(ix.classes@[k].d@)),
        rank(aa, odd_ca(ix.classes@[k].d@)) == r,
        forall|i: int| 0 <= i < 24 ==> #[trigger] p[i] == odd_coord(dval(aa[i]), bit(c, i as u32) == 1),
    ensures
        in_ball(p),
        !is_origin(p),
        ix.index_of(p) == 1 + ix.classes@[k].offset + local,
{
    let cl = ix.classes@[k];
    assert(class_wf(cl));
    let gol = ix.leech.code();
    assert(is_codeword(c)) by {
        ix.leech.lemma_code_wf();
        gol.lemma_words_are_codewords(g);
    }
    lemma_odd_point(p, c, cl.d@, aa);
    assert(class_matches(cl, p));
    lemma_class_unique(ix, p, k);
    let g2 = flat_rank(gol, c);
    assert(0 <= g2 < 4096 && gol.words()[g2] == c);
    ix.leech.lemma_code_wf();
    gol.lemma_words_distinct(g, g2);
}

impl Indexer {
    /// Decodes `local` within the odd class `k`.
    fn decode_odd(&self, k: usize, local: u128) -> (p: Point)
        requires
            self.wf(),
            k < self.classes.len(),
            self.classes@[k as int].odd,
            local < self.classes@[k as int].card,
        ensures
            in_ball(p),
            !is_origin(p),
            self.index_of(p) == 1 + self.classes@[k as int].offset + local,
    {
        let cls = &self.classes[k];
        let ghost d = cls.d@;
        proof {
            assert(class_wf(*cls));
            lemma_odd_class_counts(d);
            lemma_mult_pos(odd_ca(d));
            lemma_split(local as int, cls.a_on as int, 4096);
            self.leech.lemma_code_wf();
        }
        let r = local % cls.a_on;
        let g = local / cls.a_on;
        let gol = self.leech.golay();
        let words = gol.codewords();
        let c = words[g as usize];
        let kinds = perm_unrank(r, cls.ca.as_slice());
        let ghost aa = u8_counts(kinds@);
        proof {
            lemma_has_counts_range(aa, odd_ca(d));
        }
        let mut p: Point = [0i32; 24];
        let mut i: usize = 0;
        while i < 24
            invariant
                i <= 24,
                kinds@.len() == 24,
                aa == u8_counts(kinds@),
                forall|j: int| 0 <= j < 24 ==> 0 <= #[trigger] aa[j] < 7,
                forall|j: int| 0 <= j < i ==> #[trigger] p[j] == odd_coord(dval(aa[j]), bit(c, j as u32) == 1),
            decreases 24 - i,
        {
            let v: i32 = 13 - 2 * (kinds[i] as i32);
            let a: i32 = if v % 4 == 3 {
                v
            } else {
                -v
            };
            let ghost old_p = p;
            p[i] = if (c >> (i as u32)) & 1 == 1 {
                a
            } else {
                -a
            };
            proof {
                assert(v == dval(aa[i as int]));
                assert forall|j: int| 0 <= j < i + 1 implies #[trigger] p[j] == odd_coord(
                    dval(aa[j]),
                    bit(c, j as u32) == 1,
                ) by {
                    if j < i {
                        assert(p[j] == old_p[j]);
                    }
                }
            }
            i = i + 1;
        }
        proof {
            lemma_odd_decoded(self, k as int, local as int, g as int, r as int, c, aa, p);
        }
        p
    }
}


impl Indexer {
    /// The class whose index range holds `i`.
    #[verifier::spinoff_prover]
    fn find_class(&self, i: u128) -> (k: usize)
        requires
            self.wf(),
            i < self.total,
        ensures
            k < self.classes.len(),
            self.classes@[k as int].offset <= i < self.classes@[k as int].offset + self.classes@[k as int].card,
    {
        let ghost cls = self.classes@;
        let ghost total = self.total as int;
        proof {
            assert(cls.len() > 0);
            assert(cls[0].offset == 0);
            assert(cls.last().offset + cls.last().card == total);
        }
        let mut lo: usize = 0;
        let mut hi: usize = self.classes.len();
        while hi - lo > 1
            invariant
                cls == self.classes@,
                lo < hi <= cls.len(),
                cls[lo as int].offset <= i,
                hi < cls.len() ==> cls[hi as int].offset > i,
            decreases hi - lo,
        {
            let mid = lo + (hi - lo) / 2;
            if self.classes[mid].offset <= i {
                lo = mid;
            } else {
                hi = mid;
            }
        }
        proof {
            if hi < cls.len() {
                assert(cls[lo as int + 1].offset == cls[lo as int].offset + cls[lo as int].card);
            } else {
                assert(cls[lo as int] == cls.last());
            }
        }
        lo
    }

    /// Decodes an index in `0 ..= total` back to its point (the origin for
    /// 0); `None` above the range.
    pub fn decode(&self, idx: u64) -> (r: Option<Point>)
        requires
            self.wf(),
        ensures
            r is Some <==> idx <= self.total(),
            r matches Some(p) ==> in_ball(p) && self.index_of(p) == idx,
    {
        if idx == 0 {
            let p = [0i32; 24];
            proof {
                assert(is_origin(p));
            }
            return Some(p);
        }
        let i = (idx - 1) as u128;
        if i >= self.total {
            return None;
        }
        let k = self.find_class(i);
        let local = i - self.classes[k].offset;
        let p = if self.classes[k].odd {
            self.decode_odd(k, local)
        } else {
            self.decode_even(k, local)
        };
        Some(p)
    }
}


// ---------------------------------------------------------------------------
// Parsing a point of the ball
// ---------------------------------------------------------------------------
/// The even count vector of an even point of the ball is valid, and its
/// arrangements have the class's counts.
proof fn lemma_even_ball_parse(x: Point)
    requires
        in_ball(x),
        !is_origin(x),
        par(x) == 0,
    ensures
        even_valid(even_counts(x), 13),
        is_codeword(golay_word(x)),
        pc(golay_word(x)) == even_w(even_counts(x)),
        has_counts(on_kinds(x, golay_word(x)), even_ca(even_counts(x))),
        has_counts(off_kinds(x, golay_word(x)), even_cb(even_counts(x))),
        on_signs(x, golay_word(x)).len() == even_w(even_counts(x)),
        bits01(on_signs(x, golay_word(x))),
        even_w(even_counts(x)) > 0 ==> ssum(on_signs(x, golay_word(x))) % 2 == even_p_req(
            even_counts(x),
        ),
        off_signs(x, golay_word(x)).len() == even_free_n(even_counts(x)),
        bits01(off_signs(x, golay_word(x))),
        hist(x)[0] == 24 - even_w(even_counts(x)) - even_free_n(even_counts(x)),
        forall|i: int|
            0 <= i < 24 ==> #[trigger] x[i] == even_coord(
                golay_word(x),
                on_kinds(x, golay_word(x)),
                off_kinds(x, golay_word(x)),
                on_signs(x, golay_word(x)),
                off_signs(x, golay_word(x)),
                i,
            ),
{
    let c = golay_word(x);
    let d = even_counts(x);
    let h = hist(x);
    lemma_origin_norm(x);
    lemma_even_parse(x);
    lemma_codeword_facts(c);
    lemma_even_arr_parse(x, c);
    assert(0 <= d[0] && 0 <= d[1] && 0 <= d[2] && 0 <= d[3] && 0 <= d[4] && 0 <= d[5] && 0 <= d[6]);
    assert(even_norm(d) == norm(x));
    assert(h[0] == 24 - even_w(d) - even_free_n(d));
    lemma_even_ball_kinds(x);
    lemma_even_ball_signs(x);
}

proof fn lemma_even_ball_kinds(x: Point)
    requires
        in_ball(x),
        !is_origin(x),
        par(x) == 0,
        hist(x)[0] == 24 - even_w(even_counts(x)) - even_free_n(even_counts(x)),
    ensures
        has_counts(on_kinds(x, golay_word(x)), even_ca(even_counts(x))),
        has_counts(off_kinds(x, golay_word(x)), even_cb(even_counts(x))),
        off_signs(x, golay_word(x)).len() == even_free_n(even_counts(x)),
{
    let c = golay_word(x);
    let d = even_counts(x);
    lemma_origin_norm(x);
    lemma_even_parse(x);
    lemma_codeword_facts(c);
    lemma_even_arr_parse(x, c);
    assert(even_w(d) == pc_upto(c, 24));
    let ca = even_ca(d);
    let cb = even_cb(d);
    assert forall|kk: int| 0 <= kk < 4 implies occ(on_kinds(x, c), kk) == #[trigger] ca[kk] && occ(
        off_kinds(x, c),
        kk,
    ) == cb[kk] by {
        lemma_even_occ(x, c, kk);
    }
    lemma_occ_counts(on_kinds(x, c), ca);
    lemma_occ_counts(off_kinds(x, c), cb);
    lemma_nzc_occ(off_kinds(x, c), 24 - pc_upto(c, 24));
    lemma_counts_occ(off_kinds(x, c), cb, 3);
}

proof fn lemma_even_ball_signs(x: Point)
    requires
        in_ball(x),
        !is_origin(x),
        par(x) == 0,
    ensures
        bits01(on_signs(x, golay_word(x))),
        bits01(off_signs(x, golay_word(x))),
        even_w(even_counts(x)) > 0 ==> ssum(on_signs(x, golay_word(x))) % 2 == even_p_req(
            even_counts(x),
        ),
        even_w(even_counts(x)) == 0 ==> even_p_req(even_counts(x)) == 0,
{
    let c = golay_word(x);
    let d = even_counts(x);
    let h = hist(x);
    let s0 = even_s0(d);
    let n = ssum(on_signs(x, c));
    assert(norm(x) <= 208 && is_member(x)) by {
        lemma_origin_norm(x);
    }
    assert((h_abs(h) + 4 * neg_on(x, c)) % 8 == 0 && s0 == h_abs(h) && even_w(d) == pc(c)
        && is_code_weight(pc(c)) && forall|i: int| 0 <= i < 24 ==> -15 < #[trigger] x[i] < 15)
        by {
        lemma_even_parse(x);
        crate::ball::lemma_coord_small(x);
    }
    assert(pc_upto(c, 24) == pc(c)) by {
        lemma_codeword_facts(c);
    }
    assert(on_signs(x, c).len() == pc_upto(c, 24) && bits01(on_signs(x, c)) && bits01(
        off_signs(x, c),
    )) by {
        lemma_even_parse(x);
        lemma_even_arr_parse(x, c);
    }
    assert(neg_on(x, c) == n) by {
        lemma_neg_on_signs(x, c);
    }
    assert(s0 % 4 == 0);
    if even_w(d) == 0 {
        assert(on_signs(x, c) =~= Seq::<int>::empty());
        assert(n == 0);
    }
    assert((n + s0 / 4) % 2 == 0) by (nonlinear_arith)
        requires
            (s0 + 4 * n) % 8 == 0,
            s0 % 4 == 0,
    ;
}

/// The odd count vector of an odd point of the ball is valid, and its
/// arrangement has the class's counts.
proof fn lemma_odd_ball_parse(x: Point)
    requires
        in_ball(x),
        !is_origin(x),
        par(x) == 1,
    ensures
        odd_valid(odd_counts(x), 13),
        is_codeword(golay_word(x)),
        has_counts(all_kinds(x), odd_ca(odd_counts(x))),
        forall|i: int|
            0 <= i < 24 ==> #[trigger] x[i] == odd_coord(dval(all_kinds(x)[i]), bit(golay_word(x), i as u32) == 1),
        hist(x)[1] == odd_n1(odd_counts(x)),
{
    let c = golay_word(x);
    let d = odd_counts(x);
    let h = hist(x);
    lemma_origin_norm(x);
    lemma_odd_parse(x);
    crate::ball::lemma_coord_small(x);
    lemma_odd_arr_parse(x, c);
    assert(0 <= d[0] && 0 <= d[1] && 0 <= d[2] && 0 <= d[3] && 0 <= d[4] && 0 <= d[5]);
    assert(h[1] == odd_n1(d));
    assert(odd_norm(d) == norm(x));
    let ca = odd_ca(d);
    assert forall|kk: int| 0 <= kk < 7 implies occ(all_kinds(x), kk) == #[trigger] ca[kk] by {}
    lemma_occ_counts(all_kinds(x), ca);
}


// ---------------------------------------------------------------------------
// Encoding helpers
// ---------------------------------------------------------------------------
/// `counts[v]` = number of coordinates with `|x_i| = v`, for `v < 16`.
fn abs_hist(x: &Point) -> (h: Vec<u8>)
    requires
        forall|i: int| 0 <= i < 24 ==> -15 < #[trigger] x[i] < 15,
    ensures
        h@.len() == 16,
        forall|v: int| 0 <= v < 16 ==> #[trigger] h@[v] == hist(*x)[v],
{
    let mut h: Vec<u8> = vec![0u8; 16];
    let mut i: usize = 0;
    while i < 24
        invariant
            i <= 24,
            h@.len() == 16,
            forall|j: int| 0 <= j < 24 ==> -15 < #[trigger] x[j] < 15,
            forall|v: int| 0 <= v < 16 ==> #[trigger] h@[v] == psum(ind(abs_seq(*x), v), i as int),
            forall|v: int| 0 <= v < 16 ==> #[trigger] h@[v] <= i,
        decreases 24 - i,
    {
        let xi = x[i];
        let a: usize = if xi < 0 {
            (-xi) as usize
        } else {
            xi as usize
        };
        proof {
            assert(a as int == abs_seq(*x)[i as int]);
        }
        let ghost old_h = h@;
        let cur = h[a];
        h.set(a, cur + 1);
        proof {
            assert forall|v: int| 0 <= v < 16 implies #[trigger] h@[v] == psum(
                ind(abs_seq(*x), v),
                i as int + 1,
            ) && h@[v] <= i + 1 by {
                assert(psum(ind(abs_seq(*x), v), i as int + 1) == psum(ind(abs_seq(*x), v), i as int)
                    + ind(abs_seq(*x), v)(i as int));
                if v != a {
                    assert(h@[v] == old_h[v]);
                }
            }
        }
        i = i + 1;
    }
    h
}

/// `bv` of the first `n` bits of `s`.
fn bits_value(s: &Vec<u8>, n: usize) -> (r: u128)
    requires
        n <= s.len() <= 24,
        bits01(u8_counts(s@)),
    ensures
        r == bv(u8_counts(s@).take(n as int)),
        r < pow2(n as int),
{
    let ghost t = u8_counts(s@);
    let mut acc: u128 = 0;
    let mut pw: u128 = 1;
    let mut j: usize = 0;
    proof {
        assert(t.take(0) =~= Seq::<int>::empty());
        assert(pow2(0) == 1);
    }
    while j < n
        invariant
            j <= n <= s.len() <= 24,
            t == u8_counts(s@),
            bits01(t),
            acc == bv(t.take(j as int)),
            pw == pow2(j as int),
            acc < pw,
            pw <= 0x100_0000,
        decreases n - j,
    {
        proof {
            lemma_pow2_facts(j as int);
            assert(t.take(j as int + 1).drop_last() =~= t.take(j as int));
            assert(t.take(j as int + 1).last() == t[j as int]);
            assert(0 <= t[j as int] < 2);
            lemma_pow_mono(2, j as int + 1, 24);
            crate::ball::lemma_pow2_facts(23);
            assert(pow(2, 24) == 0x100_0000) by {
                reveal_with_fuel(pow, 25);
            }
        }
        if s[j] == 1 {
            acc = acc + pw;
        }
        pw = pw * 2;
        j = j + 1;
    }
    acc
}

/// Element-wise equality of two count vectors.
fn same_counts(a: &Vec<u8>, b: &Vec<u8>) -> (r: bool)
    ensures
        r == (a@ == b@),
{
    if a.len() != b.len() {
        return false;
    }
    let mut i: usize = 0;
    while i < a.len()
        invariant
            i <= a.len() == b.len(),
            forall|j: int| 0 <= j < i ==> a@[j] == b@[j],
        decreases a.len() - i,
    {
        if a[i] != b[i] {
            return false;
        }
        i = i + 1;
    }
    proof {
        assert(a@ =~= b@);
    }
    true
}


/// The class key of a count vector: `(odd, ca, cb)`.
spec fn key_matches(cl: ClassIx, odd: bool, ka: Seq<u8>, kb: Seq<u8>) -> bool {
    &&& cl.odd == odd
    &&& cl.ca@ == ka
    &&& (!odd ==> cl.cb@ == kb)
}

proof fn lemma_u8_counts_injective(a: Seq<u8>, b: Seq<u8>)
    requires
        u8_counts(a) == u8_counts(b),
    ensures
        a == b,
{
    assert(a.len() == u8_counts(a).len());
    assert(b.len() == u8_counts(b).len());
    assert forall|j: int| 0 <= j < a.len() implies a[j] == b[j] by {
        assert(u8_counts(a)[j] == u8_counts(b)[j]);
        assert(u8_counts(a)[j] == a[j] as int);
        assert(u8_counts(b)[j] == b[j] as int);
    }
    assert(a =~= b);
}

impl Indexer {
    /// The first class with the given key.
    fn find_by_key(&self, odd: bool, ka: &Vec<u8>, kb: &Vec<u8>) -> (r: Option<usize>)
        ensures
            r matches Some(k) ==> k < self.classes.len() && key_matches(self.classes@[k as int], odd, ka@, kb@),
            r is None ==> forall|k: int| 0 <= k < self.classes.len() ==> !key_matches(#[trigger] self.classes@[k], odd, ka@, kb@),
    {
        let mut k: usize = 0;
        while k < self.classes.len()
            invariant
                k <= self.classes.len(),
                forall|j: int| 0 <= j < k ==> !key_matches(#[trigger] self.classes@[j], odd, ka@, kb@),
            decreases self.classes.len() - k,
        {
            let cl = &self.classes[k];
            if cl.odd == odd && same_counts(&cl.ca, ka) && (odd || same_counts(&cl.cb, kb)) {
                return Some(k);
            }
            k = k + 1;
        }
        None
    }
}


impl Indexer {
    /// The index of the even point `x` of the ball, whose class is `k`.
    fn encode_even(&self, x: &Point, c: u32, k: usize) -> (r: u128)
        requires
            self.wf(),
            in_ball(*x),
            !is_origin(*x),
            par(*x) == 0,
            c == golay_word(*x),
            k < self.classes.len(),
            class_matches(self.classes@[k as int], *x),
        ensures
            r == self.index_of(*x),
    {
        let cls = &self.classes[k];
        let ghost d = cls.d@;
        proof {
            assert(class_wf(*cls));
            lemma_even_class_counts(d);
            lemma_even_ball_parse(*x);
            lemma_origin_norm(*x);
            lemma_even_parse(*x);
            crate::ball::lemma_coord_small(*x);
            self.leech.lemma_code_wf();
            self.leech.code().lemma_wf();
        }
        let gol = self.leech.golay();
        let g = match gol.rank_in_weight(c) {
            Some(g) => g,
            None => {
                proof {
                    assert(false);
                }
                0
            },
        };
        let mut on_k: Vec<u8> = Vec::new();
        let mut on_s: Vec<u8> = Vec::new();
        let mut off_k: Vec<u8> = Vec::new();
        let mut off_s: Vec<u8> = Vec::new();
        let mut i: usize = 0;
        while i < 24
            invariant
                i <= 24,
                forall|j: int| 0 <= j < 24 ==> -15 < #[trigger] x[j] < 15,
                forall|j: int| 0 <= j < 24 ==> #[trigger] absv(x[j] as int) % 2 == 0,
                forall|j: int|
                    0 <= j < 24 ==> (bit(c, j as u32) == 1) == (#[trigger] absv(x[j] as int) % 4 == 2),
                u8_counts(on_k@) == collect(on_kinds_f(*x, c), i as int),
                u8_counts(on_s@) == collect(on_signs_f(*x, c), i as int),
                u8_counts(off_k@) == collect(off_kinds_f(*x, c), i as int),
                u8_counts(off_s@) == collect(off_signs_f(*x, c), i as int),
            decreases 24 - i,
        {
            let xi = x[i];
            let a: u8 = if xi < 0 {
                (-xi) as u8
            } else {
                xi as u8
            };
            let neg: u8 = if xi < 0 {
                1
            } else {
                0
            };
            proof {
                assert(a as int == absv(x[i as int] as int));
                assert(neg as int == neg_bit(x[i as int] as int));
            }
            if (c >> (i as u32)) & 1 == 1 {
                on_k.push((14 - a) / 4);
                on_s.push(neg);
            } else {
                proof {
                    crate::ball::lemma_pc_upto_step(c, i as int);
                }
                off_k.push((12 - a) / 4);
                if xi != 0 {
                    off_s.push(neg);
                }
            }
            proof {
                assert(u8_counts(on_k@) =~= collect(on_kinds_f(*x, c), i as int + 1));
                assert(u8_counts(on_s@) =~= collect(on_signs_f(*x, c), i as int + 1));
                assert(u8_counts(off_k@) =~= collect(off_kinds_f(*x, c), i as int + 1));
                assert(u8_counts(off_s@) =~= collect(off_signs_f(*x, c), i as int + 1));
            }
            i = i + 1;
        }
        proof {
            crate::combin::lemma_pow8_24();
        }
        let r_on = perm_rank(on_k.as_slice(), cls.ca.as_slice());
        let r_off = perm_rank(off_k.as_slice(), cls.cb.as_slice());
        let r_sw: u128 = if cls.w == 0 {
            0
        } else {
            bits_value(&on_s, (cls.w - 1) as usize)
        };
        let r_sf = bits_value(&off_s, off_s.len());
        proof {
            assert(u8_counts(off_s@).take(off_s.len() as int) =~= u8_counts(off_s@));
            lemma_mult_pos(even_ca(d));
            lemma_mult_pos(even_cb(d));
            lemma_pow2_facts(cls.free_n as int);
            if cls.w > 0 {
                lemma_pow2_facts(cls.w - 1);
            }
            let gam = weight_distribution(cls.w as int);
            lemma_compose(g as int, r_on as int, cls.a_on as int, gam);
            let l1 = g * cls.a_on + r_on;
            lemma_compose(l1, r_off as int, cls.a_off as int, gam * cls.a_on);
            let l2 = l1 * cls.a_off + r_off;
            lemma_compose(l2, r_sw as int, cls.s_w as int, gam * cls.a_on * cls.a_off);
            let l3 = l2 * cls.s_w + r_sw;
            lemma_compose(l3, r_sf as int, cls.s_f as int, gam * cls.a_on * cls.a_off * cls.s_w);
        }
        let l1 = g as u128 * cls.a_on + r_on;
        let l2 = l1 * cls.a_off + r_off;
        let l3 = l2 * cls.s_w + r_sw;
        let local = l3 * cls.s_f + r_sf;
        proof {
            lemma_even_index(
                self,
                k as int,
                local as int,
                g as int,
                r_on as int,
                r_off as int,
                r_sw as int,
                r_sf as int,
                *x,
            );
        }
        1 + cls.offset + local
    }
}


impl Indexer {
    /// The index of the odd point `x` of the ball, whose class is `k`.
    fn encode_odd(&self, x: &Point, c: u32, k: usize) -> (r: u128)
        requires
            self.wf(),
            in_ball(*x),
            !is_origin(*x),
            par(*x) == 1,
            c == golay_word(*x),
            k < self.classes.len(),
            class_matches(self.classes@[k as int], *x),
        ensures
            r == self.index_of(*x),
    {
        let cls = &self.classes[k];
        let ghost d = cls.d@;
        proof {
            assert(class_wf(*cls));
            lemma_odd_class_counts(d);
            lemma_odd_ball_parse(*x);
            lemma_origin_norm(*x);
            lemma_odd_parse(*x);
            crate::ball::lemma_coord_small(*x);
            self.leech.lemma_code_wf();
        }
        let gol = self.leech.golay();
        let g = match gol.rank(c) {
            Some(g) => g,
            None => {
                proof {
                    assert(false);
                }
                0
            },
        };
        let mut kinds: Vec<u8> = Vec::new();
        let mut i: usize = 0;
        while i < 24
            invariant
                i <= 24,
                forall|j: int| 0 <= j < 24 ==> -15 < #[trigger] x[j] < 15,
                forall|j: int| 0 <= j < 24 ==> #[trigger] absv(x[j] as int) % 2 == 1,
                u8_counts(kinds@) == collect(all_kinds_f(*x), i as int),
            decreases 24 - i,
        {
            let xi = x[i];
            let a: u8 = if xi < 0 {
                (-xi) as u8
            } else {
                xi as u8
            };
            proof {
                assert(a as int == absv(x[i as int] as int));
            }
            kinds.push((13 - a) / 2);
            proof {
                assert(u8_counts(kinds@) =~= collect(all_kinds_f(*x), i as int + 1));
            }
            i = i + 1;
        }
        proof {
            crate::combin::lemma_pow8_24();
        }
        let r_arr = perm_rank(kinds.as_slice(), cls.ca.as_slice());
        proof {
            lemma_compose(g as int, r_arr as int, cls.a_on as int, 4096);
        }
        let local = g as u128 * cls.a_on + r_arr;
        proof {
            lemma_class_unique(self, *x, k as int);
            let gol_s = self.leech.code();
            let g2 = flat_rank(gol_s, c);
            assert(0 <= g2 < 4096 && gol_s.words()[g2] == c);
            gol_s.lemma_words_distinct(g as int, g2);
        }
        1 + cls.offset + local
    }

    /// Encodes a point of the ball (the origin and the lattice points of norm
    /// `32 ..= 208`, [`crate::ball::lemma_in_ball_norms`]) to its index (0 for the origin);
    /// `None` for anything outside the ball, lattice membership included.
    pub fn encode(&self, x: &Point) -> (r: Option<u64>)
        requires
            self.wf(),
        ensures
            r == (if in_ball(*x) && self.index_of(*x) <= u64::MAX {
                Some(self.index_of(*x) as u64)
            } else {
                None::<u64>
            }),
            r matches Some(i) ==> i <= self.total(),
            self.total() <= u64::MAX ==> (r is Some <==> in_ball(*x)),
    {
        proof {
            if in_ball(*x) {
                self.lemma_index_in_range(*x);
            }
        }
        let mut zero = true;
        let mut i: usize = 0;
        while i < 24
            invariant
                i <= 24,
                zero == (forall|j: int| 0 <= j < i ==> x[j] == 0),
            decreases 24 - i,
        {
            if x[i] != 0 {
                zero = false;
            }
            i = i + 1;
        }
        if zero {
            proof {
                assert(is_origin(*x));
                assert(in_ball(*x));
            }
            return Some(0);
        }
        if !self.leech.contains(x) {
            return None;
        }
        let m = match Leech::shell_index(x) {
            Some(m) => m,
            None => {
                return None;
            },
        };
        if m < 2 || m > 13 {
            return None;
        }
        proof {
            assert(in_ball(*x));
        }
        let idx = self.encode_ball(x);
        if idx > u64::MAX as u128 {
            return None;
        }
        Some(idx as u64)
    }

    /// The index of a point of the ball other than the origin.
    fn encode_ball(&self, x: &Point) -> (r: u128)
        requires
            self.wf(),
            in_ball(*x),
            !is_origin(*x),
        ensures
            r == self.index_of(*x),
    {
        proof {
            lemma_origin_norm(*x);
            crate::ball::lemma_coord_small(*x);
        }
        let x0 = x[0];
        let a0: i32 = if x0 < 0 {
            -x0
        } else {
            x0
        };
        let odd = a0 % 2 == 1;
        assert(odd == (par(*x) == 1));
        let c = Leech::support_word(x);
        let h = abs_hist(x);
        let (ka, kb): (Vec<u8>, Vec<u8>) = if !odd {
            (vec![h[14], h[10], h[6], h[2]], vec![h[12], h[8], h[4], h[0]])
        } else {
            (vec![h[13], h[11], h[9], h[7], h[5], h[3], h[1]], Vec::new())
        };
        proof {
            lemma_key_facts(*x, h@, ka@, kb@);
        }
        let found = self.find_by_key(odd, &ka, &kb);
        let k = match found {
            Some(k) => k,
            None => {
                proof {
                    lemma_key_complete(self, *x, ka@, kb@);
                }
                0
            },
        };
        proof {
            assert(class_wf(self.classes@[k as int]));
            lemma_key_matches(self.classes@[k as int], *x, ka@, kb@);
        }
        if !odd {
            self.encode_even(x, c, k)
        } else {
            self.encode_odd(x, c, k)
        }
    }
}

/// The key computed from the histogram of a point of the ball.
proof fn lemma_key_facts(x: Point, h: Seq<u8>, ka: Seq<u8>, kb: Seq<u8>)
    requires
        in_ball(x),
        !is_origin(x),
        h.len() == 16,
        forall|v: int| 0 <= v < 16 ==> #[trigger] h[v] == hist(x)[v],
        par(x) == 0 ==> ka == seq![h[14], h[10], h[6], h[2]] && kb == seq![h[12], h[8], h[4], h[0]],
        par(x) == 1 ==> ka == seq![h[13], h[11], h[9], h[7], h[5], h[3], h[1]],
    ensures
        par(x) == 0 || par(x) == 1,
        par(x) == 0 ==> even_valid(even_counts(x), 13) && u8_counts(ka) == even_ca(even_counts(x))
            && u8_counts(kb) == even_cb(even_counts(x)),
        par(x) == 1 ==> odd_valid(odd_counts(x), 13) && u8_counts(ka) == odd_ca(odd_counts(x)),
{
    if par(x) == 0 {
        lemma_even_ball_parse(x);
        let d = even_counts(x);
        assert(u8_counts(ka) =~= even_ca(d));
        assert(u8_counts(kb) =~= even_cb(d));
    } else {
        lemma_odd_ball_parse(x);
        let d = odd_counts(x);
        assert(u8_counts(ka) =~= odd_ca(d));
    }
}

/// A class with the key of a point of the ball exists.
proof fn lemma_key_complete(ix: &Indexer, x: Point, ka: Seq<u8>, kb: Seq<u8>)
    requires
        ix.wf(),
        in_ball(x),
        !is_origin(x),
        par(x) == 0 ==> even_valid(even_counts(x), 13) && u8_counts(ka) == even_ca(even_counts(x))
            && u8_counts(kb) == even_cb(even_counts(x)),
        par(x) == 1 ==> odd_valid(odd_counts(x), 13) && u8_counts(ka) == odd_ca(odd_counts(x)),
        par(x) == 0 || par(x) == 1,
    ensures
        exists|k: int| 0 <= k < ix.classes.len() && key_matches(#[trigger] ix.classes@[k], par(x) == 1, ka, kb),
{
    let cls = ix.classes@;
    if par(x) == 0 {
        let d = even_counts(x);
        assert(even_valid(d, 13));
        let k = choose|k: int| 0 <= k < cls.len() && !(#[trigger] cls[k]).odd && cls[k].d@ == d;
        assert(class_wf(cls[k]));
        lemma_u8_counts_injective(cls[k].ca@, ka);
        lemma_u8_counts_injective(cls[k].cb@, kb);
        assert(key_matches(cls[k], false, ka, kb));
    } else {
        let d = odd_counts(x);
        assert(odd_valid(d, 13));
        let k = choose|k: int| 0 <= k < cls.len() && (#[trigger] cls[k]).odd && cls[k].d@ == d;
        assert(class_wf(cls[k]));
        lemma_u8_counts_injective(cls[k].ca@, ka);
        assert(key_matches(cls[k], true, ka, kb));
    }
}

/// A class with the key of a point of the ball is its class.
proof fn lemma_key_matches(cl: ClassIx, x: Point, ka: Seq<u8>, kb: Seq<u8>)
    requires
        class_wf(cl),
        par(x) == 0 || par(x) == 1,
        key_matches(cl, par(x) == 1, ka, kb),
        par(x) == 0 ==> even_valid(even_counts(x), 13) && u8_counts(ka) == even_ca(even_counts(x))
            && u8_counts(kb) == even_cb(even_counts(x)),
        par(x) == 1 ==> odd_valid(odd_counts(x), 13) && u8_counts(ka) == odd_ca(odd_counts(x)),
    ensures
        class_matches(cl, x),
{
    if par(x) == 0 {
        let d = even_counts(x);
        assert(even_ca(cl.d@) == even_ca(d));
        assert(even_cb(cl.d@) == even_cb(d));
        assert(cl.d@.len() == 7 && d.len() == 7);
        assert(cl.d@[0] == even_ca(cl.d@)[0] && cl.d@[1] == even_ca(cl.d@)[1] && cl.d@[2] == even_ca(cl.d@)[2] && cl.d@[3] == even_ca(cl.d@)[3]);
        assert(cl.d@[4] == even_cb(cl.d@)[0] && cl.d@[5] == even_cb(cl.d@)[1] && cl.d@[6] == even_cb(cl.d@)[2]);
        assert(cl.d@ =~= d);
    } else {
        let d = odd_counts(x);
        assert(odd_ca(cl.d@) == odd_ca(d));
        assert(cl.d@.len() == 6 && d.len() == 6);
        assert(cl.d@[0] == odd_ca(cl.d@)[0] && cl.d@[1] == odd_ca(cl.d@)[1] && cl.d@[2] == odd_ca(cl.d@)[2] && cl.d@[3] == odd_ca(cl.d@)[3] && cl.d@[4] == odd_ca(cl.d@)[4] && cl.d@[5] == odd_ca(cl.d@)[5]);
        assert(cl.d@ =~= d);
    }
}


// ---------------------------------------------------------------------------
// The index is a bijection onto 0 ..= total
// ---------------------------------------------------------------------------
/// Every point of the ball other than the origin has a class.
proof fn lemma_class_exists(ix: &Indexer, x: Point)
    requires
        ix.wf(),
        in_ball(x),
        !is_origin(x),
    ensures
        0 <= ix.class_of(x) < ix.classes.len(),
        class_matches(ix.classes@[ix.class_of(x)], x),
        class_wf(ix.classes@[ix.class_of(x)]),
{
    let cls = ix.classes@;
    lemma_origin_norm(x);
    if par(x) == 0 {
        lemma_even_ball_parse(x);
        let d = even_counts(x);
        let k = choose|k: int| 0 <= k < cls.len() && !(#[trigger] cls[k]).odd && cls[k].d@ == d;
        assert(class_matches(cls[k], x));
    } else {
        lemma_odd_ball_parse(x);
        let d = odd_counts(x);
        let k = choose|k: int| 0 <= k < cls.len() && (#[trigger] cls[k]).odd && cls[k].d@ == d;
        assert(class_matches(cls[k], x));
    }
}

/// The digits of an even point of the ball are in range.
proof fn lemma_even_ball_digits(ix: &Indexer, x: Point)
    requires
        ix.wf(),
        in_ball(x),
        !is_origin(x),
        par(x) == 0,
    ensures
        ({
            let cl = ix.classes@[ix.class_of(x)];
            let c = golay_word(x);
            let gol = ix.leech.code();
            let g = weight_rank(gol, c);
            let r_on = rank(on_kinds(x, c), even_ca(cl.d@));
            let r_off = rank(off_kinds(x, c), even_cb(cl.d@));
            let r_sw = word_sign_code(x, c, cl.w as int);
            let r_sf = bv(off_signs(x, c));
            &&& !cl.odd
            &&& cl.d@ == even_counts(x)
            &&& 0 <= g < weight_distribution(cl.w as int)
            &&& gol.bucket(cl.w as int)[g] == c
            &&& 0 <= r_on < cl.a_on
            &&& 0 <= r_off < cl.a_off
            &&& 0 <= r_sw < cl.s_w
            &&& 0 <= r_sf < cl.s_f
            &&& 0 <= even_local(cl, g, r_on, r_off, r_sw, r_sf) < cl.card
        }),
{
    lemma_class_exists(ix, x);
    let k = ix.class_of(x);
    let cl = ix.classes@[k];
    let d = cl.d@;
    let c = golay_word(x);
    let gol = ix.leech.code();
    lemma_even_ball_parse(x);
    lemma_even_class_counts(d);
    assert(is_codeword(c) && pc(c) == cl.w);
    assert(gol.bucket(pc(c)).len() == weight_distribution(cl.w as int) && gol.bucket(pc(c)).contains(c)) by {
        ix.leech.lemma_code_wf();
        gol.lemma_wf();
    }
    let g = weight_rank(gol, c);
    assert(0 <= g < gol.bucket(pc(c)).len() && gol.bucket(pc(c))[g] == c);
    let r_on = rank(on_kinds(x, c), even_ca(d));
    let r_off = rank(off_kinds(x, c), even_cb(d));
    lemma_rank_bound(on_kinds(x, c), even_ca(d));
    lemma_rank_bound(off_kinds(x, c), even_cb(d));
    let w = cl.w as int;
    let r_sw = word_sign_code(x, c, w);
    if w > 0 {
        let t = on_signs(x, c).take(w - 1);
        assert(bits01(t)) by {
            assert forall|j: int| 0 <= j < t.len() implies 0 <= #[trigger] t[j] < 2 by {
                assert(t[j] == on_signs(x, c)[j]);
            }
        }
        lemma_bv_bound(t);
    }
    lemma_bv_bound(off_signs(x, c));
    let r_sf = bv(off_signs(x, c));
    let gam = weight_distribution(w);
    lemma_compose(g, r_on, cl.a_on as int, gam);
    let l1 = g * cl.a_on + r_on;
    lemma_compose(l1, r_off, cl.a_off as int, gam * cl.a_on);
    let l2 = l1 * cl.a_off + r_off;
    lemma_compose(l2, r_sw, cl.s_w as int, gam * cl.a_on * cl.a_off);
    let l3 = l2 * cl.s_w + r_sw;
    lemma_compose(l3, r_sf, cl.s_f as int, gam * cl.a_on * cl.a_off * cl.s_w);
}

/// The digits of an odd point of the ball are in range.
proof fn lemma_odd_ball_digits(ix: &Indexer, x: Point)
    requires
        ix.wf(),
        in_ball(x),
        !is_origin(x),
        par(x) == 1,
    ensures
        ({
            let cl = ix.classes@[ix.class_of(x)];
            let c = golay_word(x);
            let gol = ix.leech.code();
            let g = flat_rank(gol, c);
            let r = rank(all_kinds(x), odd_ca(cl.d@));
            &&& cl.odd
            &&& cl.d@ == odd_counts(x)
            &&& 0 <= g < 4096
            &&& gol.words()[g] == c
            &&& 0 <= r < cl.a_on
            &&& 0 <= g * cl.a_on + r < cl.card
        }),
{
    lemma_class_exists(ix, x);
    let k = ix.class_of(x);
    let cl = ix.classes@[k];
    let d = cl.d@;
    let c = golay_word(x);
    let gol = ix.leech.code();
    lemma_odd_ball_parse(x);
    lemma_odd_class_counts(d);
    assert(exists|g: int| 0 <= g < 4096 && gol.words()[g] == c) by {
        ix.leech.lemma_code_wf();
        gol.lemma_wf();
        let w = pc(c);
        lemma_codeword_facts(c);
        assert(gol.bucket(w).contains(c));
        let q = choose|q: int| 0 <= q < gol.bucket(w).len() && gol.bucket(w)[q] == c;
        crate::golay::lemma_bucket_start_bound(w);
        assert(gol.words()[crate::golay::bucket_start(w) + q] == c);
    }
    let g = flat_rank(gol, c);
    lemma_rank_bound(all_kinds(x), odd_ca(d));
    let r = rank(all_kinds(x), odd_ca(d));
    lemma_compose(g, r, cl.a_on as int, 4096);
}


/// Sign patterns with the same parity and the same first `w − 1` bits agree.
proof fn lemma_signs_determined(s: Seq<int>, t: Seq<int>, w: int)
    requires
        w > 0,
        s.len() == w,
        t.len() == w,
        bits01(s),
        bits01(t),
        ssum(s) % 2 == ssum(t) % 2,
        s.take(w - 1) == t.take(w - 1),
    ensures
        s == t,
{
    assert(s == s.take(w - 1).push(s.last()));
    assert(t == t.take(w - 1).push(t.last()));
    lemma_ssum_push(s.take(w - 1), s.last());
    lemma_ssum_push(t.take(w - 1), t.last());
    assert(0 <= s.last() < 2 && 0 <= t.last() < 2);
}

/// Two equal mixed-radix numbers have equal digits.
proof fn lemma_digits_eq(q1: int, r1: int, q2: int, r2: int, rr: int, qq: int)
    requires
        0 <= r1 < rr,
        0 <= r2 < rr,
        0 <= q1 < qq,
        0 <= q2 < qq,
        q1 * rr + r1 == q2 * rr + r2,
    ensures
        q1 == q2,
        r1 == r2,
{
    lemma_compose(q1, r1, rr, qq);
    lemma_compose(q2, r2, rr, qq);
}

/// Two even points of the same class with the same digits are equal.
proof fn lemma_even_same(ix: &Indexer, x: Point, y: Point)
    requires
        ix.wf(),
        in_ball(x),
        in_ball(y),
        !is_origin(x),
        !is_origin(y),
        par(x) == 0,
        par(y) == 0,
        ix.class_of(x) == ix.class_of(y),
        ({
            let cl = ix.classes@[ix.class_of(x)];
            let gol = ix.leech.code();
            let cx = golay_word(x);
            let cy = golay_word(y);
            even_local(
                cl,
                weight_rank(gol, cx),
                rank(on_kinds(x, cx), even_ca(cl.d@)),
                rank(off_kinds(x, cx), even_cb(cl.d@)),
                word_sign_code(x, cx, cl.w as int),
                bv(off_signs(x, cx)),
            ) == even_local(
                cl,
                weight_rank(gol, cy),
                rank(on_kinds(y, cy), even_ca(cl.d@)),
                rank(off_kinds(y, cy), even_cb(cl.d@)),
                word_sign_code(y, cy, cl.w as int),
                bv(off_signs(y, cy)),
            )
        }),
    ensures
        x == y,
{
    let cl = ix.classes@[ix.class_of(x)];
    let d = cl.d@;
    let w = cl.w as int;
    let gol = ix.leech.code();
    let cx = golay_word(x);
    let cy = golay_word(y);
    lemma_even_ball_digits(ix, x);
    lemma_even_ball_digits(ix, y);
    let gx = weight_rank(gol, cx);
    let gy = weight_rank(gol, cy);
    let ax = rank(on_kinds(x, cx), even_ca(d));
    let ay = rank(on_kinds(y, cy), even_ca(d));
    let bx = rank(off_kinds(x, cx), even_cb(d));
    let by_ = rank(off_kinds(y, cy), even_cb(d));
    let sx = word_sign_code(x, cx, w);
    let sy = word_sign_code(y, cy, w);
    let fx = bv(off_signs(x, cx));
    let fy = bv(off_signs(y, cy));
    let gam = weight_distribution(w);
    // peel the digits
    lemma_compose(gx, ax, cl.a_on as int, gam);
    lemma_compose(gy, ay, cl.a_on as int, gam);
    let l1x = gx * cl.a_on + ax;
    let l1y = gy * cl.a_on + ay;
    lemma_compose(l1x, bx, cl.a_off as int, gam * cl.a_on);
    lemma_compose(l1y, by_, cl.a_off as int, gam * cl.a_on);
    let l2x = l1x * cl.a_off + bx;
    let l2y = l1y * cl.a_off + by_;
    lemma_compose(l2x, sx, cl.s_w as int, gam * cl.a_on * cl.a_off);
    lemma_compose(l2y, sy, cl.s_w as int, gam * cl.a_on * cl.a_off);
    let l3x = l2x * cl.s_w + sx;
    let l3y = l2y * cl.s_w + sy;
    lemma_digits_eq(l3x, fx, l3y, fy, cl.s_f as int, gam * cl.a_on * cl.a_off * cl.s_w);
    lemma_digits_eq(l2x, sx, l2y, sy, cl.s_w as int, gam * cl.a_on * cl.a_off);
    lemma_digits_eq(l1x, bx, l1y, by_, cl.a_off as int, gam * cl.a_on);
    lemma_digits_eq(gx, ax, gy, ay, cl.a_on as int, gam);
    // the pieces agree
    assert(cx == cy);
    let c = cx;
    lemma_even_ball_parse(x);
    lemma_even_ball_parse(y);
    lemma_even_class_counts(d);
    lemma_rank_bound(on_kinds(x, c), even_ca(d));
    lemma_rank_bound(on_kinds(y, c), even_ca(d));
    lemma_rank_bound(off_kinds(x, c), even_cb(d));
    lemma_rank_bound(off_kinds(y, c), even_cb(d));
    lemma_rank_unrank(on_kinds(x, c), even_ca(d));
    lemma_rank_unrank(on_kinds(y, c), even_ca(d));
    lemma_rank_unrank(off_kinds(x, c), even_cb(d));
    lemma_rank_unrank(off_kinds(y, c), even_cb(d));
    lemma_even_class_counts(d);
    assert(on_kinds(x, c) == on_kinds(y, c));
    assert(off_kinds(x, c) == off_kinds(y, c));
    if w > 0 {
        let tx = on_signs(x, c).take(w - 1);
        let ty = on_signs(y, c).take(w - 1);
        assert(bits01(tx)) by {
            assert forall|j: int| 0 <= j < tx.len() implies 0 <= #[trigger] tx[j] < 2 by {
                assert(tx[j] == on_signs(x, c)[j]);
            }
        }
        assert(bits01(ty)) by {
            assert forall|j: int| 0 <= j < ty.len() implies 0 <= #[trigger] ty[j] < 2 by {
                assert(ty[j] == on_signs(y, c)[j]);
            }
        }
        lemma_bv_injective(tx, ty);
        lemma_signs_determined(on_signs(x, c), on_signs(y, c), w);
    } else {
        assert(on_signs(x, c) =~= on_signs(y, c));
    }
    lemma_bv_injective(off_signs(x, c), off_signs(y, c));
    assert forall|i: int| 0 <= i < 24 implies x[i] == y[i] by {
        assert(x[i] == even_coord(c, on_kinds(x, c), off_kinds(x, c), on_signs(x, c), off_signs(x, c), i));
        assert(y[i] == even_coord(c, on_kinds(y, c), off_kinds(y, c), on_signs(y, c), off_signs(y, c), i));
    }
    assert(x =~= y);
}


/// Two odd points of the same class with the same digits are equal.
proof fn lemma_odd_same(ix: &Indexer, x: Point, y: Point)
    requires
        ix.wf(),
        in_ball(x),
        in_ball(y),
        !is_origin(x),
        !is_origin(y),
        par(x) == 1,
        par(y) == 1,
        ix.class_of(x) == ix.class_of(y),
        ({
            let cl = ix.classes@[ix.class_of(x)];
            let gol = ix.leech.code();
            flat_rank(gol, golay_word(x)) * cl.a_on + rank(all_kinds(x), odd_ca(cl.d@)) == flat_rank(
                gol,
                golay_word(y),
            ) * cl.a_on + rank(all_kinds(y), odd_ca(cl.d@))
        }),
    ensures
        x == y,
{
    let cl = ix.classes@[ix.class_of(x)];
    let d = cl.d@;
    let gol = ix.leech.code();
    lemma_odd_ball_digits(ix, x);
    lemma_odd_ball_digits(ix, y);
    let gx = flat_rank(gol, golay_word(x));
    let gy = flat_rank(gol, golay_word(y));
    let rx = rank(all_kinds(x), odd_ca(d));
    let ry = rank(all_kinds(y), odd_ca(d));
    lemma_digits_eq(gx, rx, gy, ry, cl.a_on as int, 4096);
    let c = golay_word(x);
    assert(golay_word(y) == c);
    lemma_odd_ball_parse(x);
    lemma_odd_ball_parse(y);
    lemma_odd_class_counts(d);
    lemma_rank_bound(all_kinds(x), odd_ca(d));
    lemma_rank_bound(all_kinds(y), odd_ca(d));
    lemma_rank_unrank(all_kinds(x), odd_ca(d));
    lemma_rank_unrank(all_kinds(y), odd_ca(d));
    assert(all_kinds(x) == all_kinds(y));
    assert forall|i: int| 0 <= i < 24 implies x[i] == y[i] by {
        assert(x[i] == odd_coord(dval(all_kinds(x)[i]), bit(c, i as u32) == 1));
        assert(y[i] == odd_coord(dval(all_kinds(y)[i]), bit(c, i as u32) == 1));
    }
    assert(x =~= y);
}

/// The count vector of a lattice point records its norm.
proof fn lemma_counts_norm(x: Point)
    requires
        is_member(x),
        norm(x) <= 208,
    ensures
        par(x) == 0 ==> even_norm(even_counts(x)) == norm(x),
        par(x) == 1 ==> odd_norm(odd_counts(x)) == norm(x),
{
    if par(x) == 0 {
        lemma_even_parse(x);
    } else {
        assert((x[0] as int) % 2 == 0 || (x[0] as int) % 2 == 1);
        lemma_odd_parse(x);
    }
}

/// An even class of the enumeration holds at most `total()` points.
#[verifier::rlimit(40)]
proof fn lemma_even_card_fits(ix: &Indexer, c: EvenClass, d: Seq<int>)
    requires
        ix.wf(),
        even_class_is(c, d),
        even_valid(d, 13),
    ensures
        c.card() <= ix.total(),
{
    c.lemma_card_of(d);
    let cls = ix.classes@;
    let k = choose|k: int| 0 <= k < cls.len() && !(#[trigger] cls[k]).odd && cls[k].d@ == d;
    let cl = cls[k];
    assert(class_wf(cl));
    assert(cl.offset + cl.card <= ix.total);
    let g = weight_distribution(even_w(d));
    let sw = cl.s_w as int;
    let sf = cl.s_f as int;
    let a1 = cl.a_on as int;
    let a2 = cl.a_off as int;
    assert(g * sw * sf * a1 * a2 == g * a1 * a2 * sw * sf) by (nonlinear_arith);
}

/// An odd class of the enumeration holds at most `total()` points.
proof fn lemma_odd_card_fits(ix: &Indexer, c: OddClass, d: Seq<int>)
    requires
        ix.wf(),
        odd_class_is(c, d),
        odd_valid(d, 13),
    ensures
        c.card() <= ix.total(),
{
    c.lemma_card_of(d);
    let cls = ix.classes@;
    let k = choose|k: int| 0 <= k < cls.len() && (#[trigger] cls[k]).odd && cls[k].d@ == d;
    assert(class_wf(cls[k]));
    assert(cls[k].offset + cls[k].card <= ix.total);
}

/// The class-set sums over the first `n` even classes of the enumeration
/// agree with the layout's.
proof fn lemma_even_prefix_sum(cs: ClassSet, m: int, n: int)
    requires
        0 <= n <= cs.even.len(),
        cs.even.len() == even_list(EVEN_BOX as int, 13).len(),
        forall|i: int|
            0 <= i < cs.even.len() ==> even_class_is(
                #[trigger] cs.even@[i],
                even_list(EVEN_BOX as int, 13)[i],
            ),
    ensures
        crate::classes::even_shell_sum(cs.even@.take(n), m) == even_shell_sum(m, n),
    decreases n,
{
    if n > 0 {
        lemma_even_prefix_sum(cs, m, n - 1);
        lemma_even_list(EVEN_BOX as int, 13);
        let d = even_list(EVEN_BOX as int, 13)[n - 1];
        let c = cs.even@[n - 1];
        assert(cs.even@.take(n).drop_last() =~= cs.even@.take(n - 1));
        assert(cs.even@.take(n).last() == c);
        c.lemma_card_of(d);
        let g = weight_distribution(even_w(d));
        let sw = if even_w(d) == 0 {
            1
        } else {
            pow2(even_w(d) - 1)
        };
        let sf = pow2(even_free_n(d));
        let a = mult(even_ca(d));
        let b = mult(even_cb(d));
        assert(g * sw * sf * a * b == g * a * b * sw * sf) by (nonlinear_arith);
        assert(c.card() == even_card(d));
    }
}

/// The same for the odd classes.
proof fn lemma_odd_prefix_sum(cs: ClassSet, m: int, n: int)
    requires
        0 <= n <= cs.odd.len(),
        cs.odd.len() == odd_list(ODD_BOX as int, 13).len(),
        forall|i: int|
            0 <= i < cs.odd.len() ==> odd_class_is(
                #[trigger] cs.odd@[i],
                odd_list(ODD_BOX as int, 13)[i],
            ),
    ensures
        crate::classes::odd_shell_sum(cs.odd@.take(n), m) == odd_shell_sum(m, n),
    decreases n,
{
    if n > 0 {
        lemma_odd_prefix_sum(cs, m, n - 1);
        lemma_odd_list(ODD_BOX as int, 13);
        let d = odd_list(ODD_BOX as int, 13)[n - 1];
        let c = cs.odd@[n - 1];
        assert(cs.odd@.take(n).drop_last() =~= cs.odd@.take(n - 1));
        assert(cs.odd@.take(n).last() == c);
        c.lemma_card_of(d);
        assert(c.card() == odd_card(d));
    }
}

/// Every shell total of the enumeration of the shells `2 ..= 13` is at most
/// the layout total, which [`Indexer::new`] equates with `N(13)`; so
/// [`ClassSet::shell_cardinality`] may be called on every such shell.
pub proof fn lemma_shell_totals_fit(cs: ClassSet, m: int)
    requires
        2 <= m <= 13,
        cs.even.len() == even_list(EVEN_BOX as int, 13).len(),
        forall|i: int|
            0 <= i < cs.even.len() ==> even_class_is(
                #[trigger] cs.even@[i],
                even_list(EVEN_BOX as int, 13)[i],
            ) && cs.even@[i].wf(),
        cs.odd.len() == odd_list(ODD_BOX as int, 13).len(),
        forall|i: int|
            0 <= i < cs.odd.len() ==> odd_class_is(
                #[trigger] cs.odd@[i],
                odd_list(ODD_BOX as int, 13)[i],
            ) && cs.odd@[i].wf(),
    ensures
        0 <= cs.shell_total(m) <= layout_total(),
        cs.shell_total(m) == shells_sum(m + 1) - shells_sum(m),
{
    let ne = cs.even.len() as int;
    let no = cs.odd.len() as int;
    assert(cs.even@.take(ne) =~= cs.even@);
    assert(cs.odd@.take(no) =~= cs.odd@);
    assert forall|j: int| 2 <= j <= 13 implies #[trigger] even_shell_sum(j, ne) >= 0 && odd_shell_sum(
        j,
        no,
    ) >= 0 by {
        lemma_even_prefix_sum(cs, j, ne);
        lemma_odd_prefix_sum(cs, j, no);
        crate::classes::lemma_even_sum_bounds(cs.even@, j);
        crate::classes::lemma_odd_sum_bounds(cs.odd@, j);
    }
    lemma_even_prefix_sum(cs, m, ne);
    lemma_odd_prefix_sum(cs, m, no);
    lemma_shells_sum_grows(m + 1, 14, ne, no);
    assert(shells_sum(m + 1) == shells_sum(m) + even_shell_sum(m, ne) + odd_shell_sum(m, no));
    lemma_shells_sum_grows(2, m, ne, no);
}

proof fn lemma_shells_sum_grows(a: int, b: int, ne: int, no: int)
    requires
        2 <= a <= b <= 14,
        ne == even_list(EVEN_BOX as int, 13).len(),
        no == odd_list(ODD_BOX as int, 13).len(),
        forall|j: int| 2 <= j <= 13 ==> #[trigger] even_shell_sum(j, ne) >= 0 && odd_shell_sum(j, no)
            >= 0,
    ensures
        shells_sum(a) <= shells_sum(b),
        shells_sum(a) >= 0,
    decreases b,
{
    if b > a {
        lemma_shells_sum_grows(a, b - 1, ne, no);
        assert(even_shell_sum(b - 1, ne) >= 0);
    } else if a > 2 {
        lemma_shells_sum_grows(2, a - 1, ne, no);
        assert(even_shell_sum(a - 1, ne) >= 0);
    }
}

/// Every lattice point of the shells `2 ..= 13` lies in exactly one class of
/// the enumeration: its count vector (a function of the point) is a valid
/// class of the point's parity and shell, listed exactly once in the class
/// list of that parity ([`lemma_even_list`], [`lemma_odd_list`]).
pub proof fn lemma_point_class(x: Point)
    requires
        in_ball(x),
        !is_origin(x),
    ensures
        par(x) == 0 ==> {
            &&& even_valid(even_counts(x), 13)
            &&& even_norm(even_counts(x)) == norm(x)
            &&& even_list(EVEN_BOX as int, 13).contains(even_counts(x))
            &&& forall|i: int, j: int|
                0 <= i < even_list(EVEN_BOX as int, 13).len() && 0 <= j < even_list(
                    EVEN_BOX as int,
                    13,
                ).len() && #[trigger] even_list(EVEN_BOX as int, 13)[i] == even_counts(x)
                    && #[trigger] even_list(EVEN_BOX as int, 13)[j] == even_counts(x) ==> i == j
        },
        par(x) == 1 ==> {
            &&& odd_valid(odd_counts(x), 13)
            &&& odd_norm(odd_counts(x)) == norm(x)
            &&& odd_list(ODD_BOX as int, 13).contains(odd_counts(x))
            &&& forall|i: int, j: int|
                0 <= i < odd_list(ODD_BOX as int, 13).len() && 0 <= j < odd_list(
                    ODD_BOX as int,
                    13,
                ).len() && #[trigger] odd_list(ODD_BOX as int, 13)[i] == odd_counts(x)
                    && #[trigger] odd_list(ODD_BOX as int, 13)[j] == odd_counts(x) ==> i == j
        },
{
    lemma_origin_norm(x);
    lemma_counts_norm(x);
    if par(x) == 0 {
        lemma_even_ball_parse(x);
        let d = even_counts(x);
        crate::classes::lemma_even_valid_in_box(d, 13);
        crate::classes::lemma_even_pos_digits(d);
        lemma_even_list(EVEN_BOX as int, 13);
        let l = even_list(EVEN_BOX as int, 13);
        assert forall|i: int, j: int|
            0 <= i < l.len() && 0 <= j < l.len() && #[trigger] l[i] == d && #[trigger] l[j] == d
                implies i == j by {
            if i < j {
                assert(even_pos(l[i]) < even_pos(l[j]));
            } else if j < i {
                assert(even_pos(l[j]) < even_pos(l[i]));
            }
        }
    } else {
        lemma_odd_ball_parse(x);
        let d = odd_counts(x);
        crate::classes::lemma_odd_valid_in_box(d, 13);
        crate::classes::lemma_odd_pos_digits(d);
        lemma_odd_list(ODD_BOX as int, 13);
        let l = odd_list(ODD_BOX as int, 13);
        assert forall|i: int, j: int|
            0 <= i < l.len() && 0 <= j < l.len() && #[trigger] l[i] == d && #[trigger] l[j] == d
                implies i == j by {
            if i < j {
                assert(odd_pos(l[i]) < odd_pos(l[j]));
            } else if j < i {
                assert(odd_pos(l[j]) < odd_pos(l[i]));
            }
        }
    }
}

/// The class of a point of the ball lies on the point's shell.
proof fn lemma_class_shell(ix: &Indexer, x: Point)
    requires
        ix.wf(),
        in_ball(x),
        !is_origin(x),
    ensures
        ix.classes@[ix.class_of(x)].shell == norm(x) / 16,
{
    lemma_class_exists(ix, x);
    lemma_counts_norm(x);
}

impl Indexer {
    /// Every point of the ball gets an index in `0 ..= total` (0 for the
    /// origin only).
    pub proof fn lemma_index_in_range(&self, x: Point)
        requires
            self.wf(),
            in_ball(x),
        ensures
            0 <= self.index_of(x) <= self.total(),
            (self.index_of(x) == 0) == is_origin(x),
    {
        if !is_origin(x) {
            let k = self.class_of(x);
            lemma_class_exists(self, x);
            if par(x) == 0 {
                lemma_even_ball_digits(self, x);
            } else {
                lemma_odd_ball_digits(self, x);
            }
            assert(self.classes@[k].offset + self.classes@[k].card <= self.total);
        }
    }

    /// Each shell occupies its own block of indices: a point of shell `m`
    /// gets an index above the points of the shells `2 .. m`
    /// (`shells_sum(m)` of them) and at most `shells_sum(m + 1)`; by
    /// [`lemma_shell_totals_fit`] the block holds exactly the shell's
    /// [`ClassSet::shell_total`] indices.
    pub proof fn lemma_index_shell_block(&self, x: Point)
        requires
            self.wf(),
            in_ball(x),
            !is_origin(x),
        ensures
            shells_sum(norm(x) / 16) < self.index_of(x) <= shells_sum(norm(x) / 16 + 1),
    {
        lemma_class_shell(self, x);
        lemma_class_exists(self, x);
        let k = self.class_of(x);
        assert(self.classes@[k].shell < 14);
        if par(x) == 0 {
            lemma_even_ball_digits(self, x);
        } else {
            lemma_odd_ball_digits(self, x);
        }
    }

    /// Every class of the enumeration of the shells `2 ..= 13` holds at most
    /// `total()` points; with the layout that [`Indexer::new`] returns
    /// (`total() == N13`) every class cardinality therefore fits in `u64`.
    pub proof fn lemma_class_cards_fit(&self, cs: ClassSet)
        requires
            self.wf(),
            cs.even.len() == even_list(EVEN_BOX as int, 13).len(),
            forall|i: int|
                0 <= i < cs.even.len() ==> even_class_is(
                    #[trigger] cs.even@[i],
                    even_list(EVEN_BOX as int, 13)[i],
                ),
            cs.odd.len() == odd_list(ODD_BOX as int, 13).len(),
            forall|i: int|
                0 <= i < cs.odd.len() ==> odd_class_is(
                    #[trigger] cs.odd@[i],
                    odd_list(ODD_BOX as int, 13)[i],
                ),
        ensures
            forall|i: int| 0 <= i < cs.even.len() ==> (#[trigger] cs.even@[i]).card() <= self.total(),
            forall|i: int| 0 <= i < cs.odd.len() ==> (#[trigger] cs.odd@[i]).card() <= self.total(),
    {
        lemma_even_list(EVEN_BOX as int, 13);
        lemma_odd_list(ODD_BOX as int, 13);
        assert forall|i: int| 0 <= i < cs.even.len() implies (#[trigger] cs.even@[i]).card()
            <= self.total() by {
            lemma_even_card_fits(self, cs.even@[i], even_list(EVEN_BOX as int, 13)[i]);
        }
        assert forall|i: int| 0 <= i < cs.odd.len() implies (#[trigger] cs.odd@[i]).card()
            <= self.total() by {
            lemma_odd_card_fits(self, cs.odd@[i], odd_list(ODD_BOX as int, 13)[i]);
        }
    }

    /// Indices grow with the shell: a point of a smaller shell (the origin
    /// included) has a smaller index, so each shell occupies one contiguous
    /// block of indices, the shells in increasing order.
    pub proof fn lemma_index_shell_order(&self, x: Point, y: Point)
        requires
            self.wf(),
            in_ball(x),
            in_ball(y),
            norm(x) < norm(y),
        ensures
            self.index_of(x) < self.index_of(y),
    {
        self.lemma_index_in_range(x);
        self.lemma_index_in_range(y);
        lemma_origin_norm(x);
        lemma_origin_norm(y);
        if !is_origin(x) {
            let kx = self.class_of(x);
            let ky = self.class_of(y);
            lemma_class_exists(self, x);
            lemma_class_exists(self, y);
            lemma_class_shell(self, x);
            lemma_class_shell(self, y);
            let cls = self.classes@;
            if par(x) == 0 {
                lemma_even_ball_digits(self, x);
            } else {
                lemma_odd_ball_digits(self, x);
            }
            if par(y) == 0 {
                lemma_even_ball_digits(self, y);
            } else {
                lemma_odd_ball_digits(self, y);
            }
            assert(cls[kx].shell < cls[ky].shell);
            if ky <= kx {
                if ky < kx {
                    assert(class_lt(cls[ky], cls[kx]));
                }
                assert(false);
            }
            assert(cls[kx].offset + cls[kx].card <= cls[ky].offset);
        }
    }

    /// Distinct points of the ball get distinct indices.
    pub proof fn lemma_index_injective(&self, x: Point, y: Point)
        requires
            self.wf(),
            in_ball(x),
            in_ball(y),
            self.index_of(x) == self.index_of(y),
        ensures
            x == y,
    {
        self.lemma_index_in_range(x);
        self.lemma_index_in_range(y);
        if is_origin(x) {
            assert(is_origin(y));
            assert(x =~= y);
        } else {
            let kx = self.class_of(x);
            let ky = self.class_of(y);
            lemma_class_exists(self, x);
            lemma_class_exists(self, y);
            let cx = self.classes@[kx];
            let cy = self.classes@[ky];
            let lx = self.index_of(x) - 1 - cx.offset;
            let ly = self.index_of(y) - 1 - cy.offset;
            if par(x) == 0 {
                lemma_even_ball_digits(self, x);
            } else {
                lemma_odd_ball_digits(self, x);
            }
            if par(y) == 0 {
                lemma_even_ball_digits(self, y);
            } else {
                lemma_odd_ball_digits(self, y);
            }
            assert(0 <= lx < cx.card && 0 <= ly < cy.card);
            if kx < ky {
                assert(cx.offset + cx.card <= cy.offset);
            } else if ky < kx {
                assert(cy.offset + cy.card <= cx.offset);
            }
            assert(kx == ky);
            if par(x) == 0 {
                lemma_even_same(self, x, y);
            } else {
                lemma_odd_same(self, x, y);
            }
        }
    }
}


/// Every even (odd) class of the enumeration holds at least one point, so
/// the per-shell sums of the layout are not negative.
proof fn lemma_shell_sums_nonneg(ix: &Indexer, m: int, ne: int, no: int)
    requires
        ix.wf(),
        0 <= ne <= even_list(EVEN_BOX as int, 13).len(),
        0 <= no <= odd_list(ODD_BOX as int, 13).len(),
    ensures
        even_shell_sum(m, ne) >= 0,
        odd_shell_sum(m, no) >= 0,
    decreases ne + no,
{
    lemma_even_list(EVEN_BOX as int, 13);
    lemma_odd_list(ODD_BOX as int, 13);
    let cls = ix.classes@;
    if ne > 0 {
        lemma_shell_sums_nonneg(ix, m, ne - 1, no);
        let d = even_list(EVEN_BOX as int, 13)[ne - 1];
        assert(even_valid(d, 13));
        let k = choose|k: int| 0 <= k < cls.len() && !(#[trigger] cls[k]).odd && cls[k].d@ == d;
        assert(class_wf(cls[k]));
    }
    if no > 0 {
        lemma_shell_sums_nonneg(ix, m, ne, no - 1);
        let d = odd_list(ODD_BOX as int, 13)[no - 1];
        assert(odd_valid(d, 13));
        let k = choose|k: int| 0 <= k < cls.len() && (#[trigger] cls[k]).odd && cls[k].d@ == d;
        assert(class_wf(cls[k]));
    }
}

impl Indexer {
    /// The lattice points of `Shell(m)`, `2 ≤ m ≤ 13`, form a finite set of at
    /// most as many points as the shell's block of indices holds (the sum of
    /// the shell's class cardinalities, [`lemma_shell_totals_fit`]): the index
    /// maps them one to one into the block.
    pub proof fn lemma_shell_size_bound(&self, m: int)
        requires
            self.wf(),
            2 <= m <= 13,
        ensures
            shell_points(m).finite(),
            shell_points(m).len() <= shells_sum(m + 1) - shells_sum(m),
    {
        let ne = even_list(EVEN_BOX as int, 13).len() as int;
        let no = odd_list(ODD_BOX as int, 13).len() as int;
        lemma_shell_sums_nonneg(self, m, ne, no);
        let lo = shells_sum(m) + 1;
        let hi = shells_sum(m + 1) + 1;
        assert(shells_sum(m + 1) == shells_sum(m) + even_shell_sum(m, ne) + odd_shell_sum(m, no));
        let s = shell_points(m);
        let t = vstd::set_lib::set_int_range(lo, hi);
        vstd::set_lib::lemma_int_range(lo, hi);
        assert forall|p: Point| #[trigger] s.contains(p) implies in_ball(p) && !is_origin(p)
            && lo <= self.index_of(p) < hi by {
            crate::ball::lemma_member_norm(p);
            lemma_origin_norm(p);
            self.lemma_index_shell_block(p);
        }
        let f = |p: Point| self.index_of(p);
        let g = |i: int| choose|p: Point| s.contains(p) && self.index_of(p) == i;
        assert(s.subset_of(t.map(g))) by {
            assert forall|p: Point| s.contains(p) implies #[trigger] t.map(g).contains(p) by {
                let i = self.index_of(p);
                assert(t.contains(i));
                let p2 = g(i);
                assert(s.contains(p2) && self.index_of(p2) == i);
                self.lemma_index_injective(p, p2);
                assert(g(i) == p);
            }
        }
        t.lemma_map_finite(g);
        vstd::set_lib::lemma_set_subset_finite(t.map(g), s);
        assert(vstd::relations::injective_on(f, s)) by {
            assert forall|p1: Point, p2: Point|
                s.contains(p1) && s.contains(p2) && #[trigger] f(p1) == #[trigger] f(p2) implies p1
                == p2 by {
                self.lemma_index_injective(p1, p2);
            }
        }
        vstd::set_lib::lemma_map_size(s, s.map(f), f);
        assert(s.map(f).subset_of(t));
        vstd::set_lib::lemma_len_subset(s.map(f), t);
    }
}

impl Default for Indexer {
    fn default() -> (r: Self)
        ensures
            r.wf(),
    {
        Self::build()
    }
}

} // verus!
