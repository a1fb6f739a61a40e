//! The points of the ball `Λ24(13) ∪ {0}` by class: construction of a
//! point from its codeword, value arrangement and signs, and the converse
//! parsing, with the counting facts that link them.
use vstd::prelude::*;

use crate::combin::{dec, has_counts, lemma_pow_mono, pow};
use crate::classes::pow2;
use crate::golay::{
    bit, encode_spec, is_code_weight, is_codeword, lemma_codeword_weights, lemma_pc_24, pc, pc_upto,
};
use crate::leech::{
    coord_sum, coord_sum_upto, golay_word, is_member, lemma_word_bits, norm, norm_upto, on_word,
    par, uniform_parity, Point,
};

verus! {

/// `Σ_{i < n} f(i)`.
pub open spec fn psum(f: spec_fn(int) -> int, n: int) -> int
    decreases n,
{
    if n <= 0 {
        0
    } else {
        psum(f, n - 1) + f(n - 1)
    }
}

pub(crate) proof fn lemma_psum_ext(f: spec_fn(int) -> int, g: spec_fn(int) -> int, n: int)
    requires
        forall|i: int| 0 <= i < n ==> #[trigger] f(i) == g(i),
    ensures
        psum(f, n) == psum(g, n),
    decreases n,
{
    if n > 0 {
        lemma_psum_ext(f, g, n - 1);
    }
}

pub(crate) proof fn lemma_psum_linear(f: spec_fn(int) -> int, g: spec_fn(int) -> int, h: spec_fn(int) -> int, a: int, n: int)
    requires
        forall|i: int| 0 <= i < n ==> #[trigger] f(i) == g(i) + a * h(i),
    ensures
        psum(f, n) == psum(g, n) + a * psum(h, n),
    decreases n,
{
    if n > 0 {
        lemma_psum_linear(f, g, h, a, n - 1);
        let x = psum(h, n - 1);
        let y = h(n - 1);
        assert(a * x + a * y == a * (x + y)) by (nonlinear_arith);
    }
}

pub(crate) proof fn lemma_psum_nonneg(f: spec_fn(int) -> int, n: int)
    requires
        forall|i: int| 0 <= i < n ==> #[trigger] f(i) >= 0,
    ensures
        psum(f, n) >= 0,
    decreases n,
{
    if n > 0 {
        lemma_psum_nonneg(f, n - 1);
    }
}

/// Slot of support position `i` (its rank among the set bits of `c`).
pub open spec fn on_slot(c: u32, i: int) -> int {
    pc_upto(c, i as u32)
}

/// Slot of off-support position `i`.
pub open spec fn off_slot(c: u32, i: int) -> int {
    i - pc_upto(c, i as u32)
}

pub(crate) proof fn lemma_pc_upto_step(c: u32, i: int)
    requires
        0 <= i < 32,
    ensures
        pc_upto(c, (i + 1) as u32) == pc_upto(c, i as u32) + bit(c, i as u32),
        bit(c, i as u32) <= 1,
        0 <= pc_upto(c, i as u32) <= i,
    decreases i,
{
    let b = bit(c, i as u32);
    let ii = i as u32;
    assert(b <= 1) by (bit_vector)
        requires
            b == (c >> ii) & 1,
    ;
    assert(((i + 1) as u32 - 1) as u32 == i as u32);
    if i > 0 {
        lemma_pc_upto_step(c, i - 1);
        assert(((i - 1) + 1) as u32 == i as u32);
    }
}

/// Summing over the support positions is summing over the slots.
pub(crate) proof fn lemma_reindex_on(c: u32, f: spec_fn(int) -> int, k: int)
    requires
        0 <= k <= 24,
    ensures
        psum(|i: int| if bit(c, i as u32) == 1 { f(on_slot(c, i)) } else { 0 }, k) == psum(
            f,
            pc_upto(c, k as u32),
        ),
    decreases k,
{
    if k > 0 {
        lemma_reindex_on(c, f, k - 1);
        lemma_pc_upto_step(c, k - 1);
        assert(((k - 1) + 1) as u32 == k as u32);
    } else {
        assert(pc_upto(c, 0) == 0);
    }
}

/// Summing over the off-support positions is summing over their slots.
pub(crate) proof fn lemma_reindex_off(c: u32, f: spec_fn(int) -> int, k: int)
    requires
        0 <= k <= 24,
    ensures
        psum(|i: int| if bit(c, i as u32) == 0 { f(off_slot(c, i)) } else { 0 }, k) == psum(
            f,
            k - pc_upto(c, k as u32),
        ),
    decreases k,
{
    if k > 0 {
        lemma_reindex_off(c, f, k - 1);
        lemma_pc_upto_step(c, k - 1);
        assert(((k - 1) + 1) as u32 == k as u32);
    } else {
        assert(pc_upto(c, 0) == 0);
    }
}

/// `Σ_k f(k) · c_k`.
pub open spec fn weighted(f: spec_fn(int) -> int, c: Seq<int>) -> int {
    psum(|k: int| f(k) * c[k], c.len() as int)
}

proof fn lemma_weighted_dec(f: spec_fn(int) -> int, c: Seq<int>, j: int)
    requires
        0 <= j < c.len(),
    ensures
        weighted(f, c) == weighted(f, dec(c, j)) + f(j),
{
    lemma_weighted_dec_upto(f, c, j, c.len() as int);
}

proof fn lemma_weighted_dec_upto(f: spec_fn(int) -> int, c: Seq<int>, j: int, n: int)
    requires
        0 <= j < c.len(),
        0 <= n <= c.len(),
    ensures
        psum(|k: int| f(k) * c[k], n) == psum(|k: int| f(k) * dec(c, j)[k], n) + if j < n {
            f(j)
        } else {
            0
        },
    decreases n,
{
    if n > 0 {
        lemma_weighted_dec_upto(f, c, j, n - 1);
        if n - 1 == j {
            let a = f(j);
            let b = c[j];
            assert(a * b == a * (b - 1) + a) by (nonlinear_arith);
        }
    }
}

/// Summing a function over an arrangement weights each kind by its count.
pub(crate) proof fn lemma_counts_sum(s: Seq<int>, c: Seq<int>, f: spec_fn(int) -> int)
    requires
        has_counts(s, c),
    ensures
        psum(|j: int| f(s[j]), s.len() as int) == weighted(f, c),
    decreases s.len(),
{
    if s.len() == 0 {
        lemma_psum_ext(|k: int| f(k) * c[k], |k: int| 0, c.len() as int);
        lemma_psum_zero(c.len() as int);
    } else {
        let r = s.drop_first();
        let c2 = dec(c, s[0]);
        lemma_counts_sum(r, c2, f);
        lemma_weighted_dec(f, c, s[0]);
        lemma_psum_shift(|j: int| f(s[j]), |j: int| f(r[j]), s.len() as int);
    }
}

proof fn lemma_psum_zero(n: int)
    ensures
        psum(|k: int| 0, n) == 0,
    decreases n,
{
    if n > 0 {
        lemma_psum_zero(n - 1);
    }
}

/// `Σ_{j < n} f(j) = f(0) + Σ_{j < n−1} g(j)` when `g(j) = f(j + 1)`.
pub(crate) proof fn lemma_psum_shift(f: spec_fn(int) -> int, g: spec_fn(int) -> int, n: int)
    requires
        n >= 1,
        forall|j: int| 0 <= j < n - 1 ==> #[trigger] g(j) == f(j + 1),
    ensures
        psum(f, n) == f(0) + psum(g, n - 1),
    decreases n,
{
    if n > 1 {
        lemma_psum_shift(f, g, n - 1);
        assert(g(n - 2) == f(n - 1));
    } else {
        assert(psum(f, 0) == 0);
        assert(psum(g, 0) == 0);
    }
}

/// Indicator of the slots of `s` holding kind `k`.
pub open spec fn ind(s: Seq<int>, k: int) -> spec_fn(int) -> int {
    |j: int| if s[j] == k { 1int } else { 0int }
}

/// Occurrences of kind `k` in `s`.
pub open spec fn occ(s: Seq<int>, k: int) -> int {
    psum(ind(s, k), s.len() as int)
}

/// An arrangement holds each kind as often as its count says.
pub(crate) proof fn lemma_counts_occ(s: Seq<int>, c: Seq<int>, k: int)
    requires
        has_counts(s, c),
        0 <= k < c.len(),
    ensures
        occ(s, k) == c[k],
{
    let f = |q: int| if q == k { 1int } else { 0int };
    lemma_counts_sum(s, c, f);
    assert(psum(|j: int| f(s[j]), s.len() as int) == weighted(f, c));
    lemma_weighted_single(c, k, c.len() as int);
    lemma_psum_ext(
        |q: int| f(q) * c[q],
        |q: int| (if q == k { 1int } else { 0int }) * c[q],
        c.len() as int,
    );
    assert(weighted(f, c) == c[k]);
    lemma_psum_ext(|j: int| f(s[j]), ind(s, k), s.len() as int);
}

proof fn lemma_weighted_single(c: Seq<int>, k: int, n: int)
    requires
        0 <= k < c.len(),
        0 <= n <= c.len(),
    ensures
        psum(|q: int| (if q == k { 1int } else { 0int }) * c[q], n) == if k < n {
            c[k]
        } else {
            0
        },
    decreases n,
{
    if n > 0 {
        lemma_weighted_single(c, k, n - 1);
    }
}

/// Conversely, an arrangement of kinds below `c.len()` whose occurrences
/// match the counts has those counts.
pub(crate) proof fn lemma_occ_counts(s: Seq<int>, c: Seq<int>)
    requires
        forall|j: int| 0 <= j < s.len() ==> 0 <= #[trigger] s[j] < c.len(),
        forall|k: int| 0 <= k < c.len() ==> occ(s, k) == #[trigger] c[k],
    ensures
        has_counts(s, c),
    decreases s.len(),
{
    if s.len() == 0 {
        assert forall|k: int| 0 <= k < c.len() implies #[trigger] c[k] == 0 by {
            assert(occ(s, k) == 0);
        }
    } else {
        let r = s.drop_first();
        let c2 = dec(c, s[0]);
        assert forall|k: int| 0 <= k < c2.len() implies occ(r, k) == #[trigger] c2[k] by {
            lemma_psum_shift(ind(s, k), ind(r, k), s.len() as int);
        }
        assert(occ(s, s[0]) >= 1) by {
            lemma_psum_shift(ind(s, s[0]), ind(r, s[0]), s.len() as int);
            lemma_psum_nonneg(ind(r, s[0]), r.len() as int);
        }
        lemma_occ_counts(r, c2);
    }
}


// ---------------------------------------------------------------------------
// Sequences gathered position by position
// ---------------------------------------------------------------------------
/// The values `f(i)` that are present, for `i < k`, in position order.
pub open spec fn collect(f: spec_fn(int) -> Option<int>, k: int) -> Seq<int>
    decreases k,
{
    if k <= 0 {
        Seq::empty()
    } else {
        let r = collect(f, k - 1);
        match f(k - 1) {
            Some(v) => r.push(v),
            None => r,
        }
    }
}

/// A shorter gathering is a prefix of a longer one.
pub(crate) proof fn lemma_collect_prefix(f: spec_fn(int) -> Option<int>, i: int, k: int)
    requires
        0 <= i <= k,
    ensures
        collect(f, i).len() <= collect(f, k).len(),
        collect(f, k).take(collect(f, i).len() as int) == collect(f, i),
    decreases k - i,
{
    if i < k {
        lemma_collect_prefix(f, i, k - 1);
        let r = collect(f, k - 1);
        let n = collect(f, i).len() as int;
        assert(collect(f, k).take(n) =~= r.take(n));
    } else {
        assert(collect(f, k).take(collect(f, k).len() as int) =~= collect(f, k));
    }
}

/// Where the value of a present position lands.
pub(crate) proof fn lemma_collect_at(f: spec_fn(int) -> Option<int>, i: int, k: int)
    requires
        0 <= i < k,
        f(i) is Some,
    ensures
        collect(f, i).len() < collect(f, k).len(),
        collect(f, k)[collect(f, i).len() as int] == f(i)->0,
{
    lemma_collect_prefix(f, i + 1, k);
    let n = collect(f, i).len() as int;
    assert(collect(f, i + 1) == collect(f, i).push(f(i)->0));
    assert(collect(f, k).take(n + 1)[n] == collect(f, k)[n]);
}

/// A gathering that reads its values off `a` slot by slot is a prefix of `a`.
pub(crate) proof fn lemma_collect_from(f: spec_fn(int) -> Option<int>, a: Seq<int>, k: int)
    requires
        0 <= k,
        forall|i: int|
            0 <= i < k && (#[trigger] f(i)) is Some ==> f(i)->0 == a[collect(f, i).len() as int],
        collect(f, k).len() <= a.len(),
    ensures
        collect(f, k) == a.take(collect(f, k).len() as int),
    decreases k,
{
    if k > 0 {
        lemma_collect_prefix(f, k - 1, k);
        lemma_collect_from(f, a, k - 1);
        let r = collect(f, k - 1);
        if f(k - 1) is Some {
            assert(collect(f, k) =~= a.take(collect(f, k).len() as int));
        }
    }
}


// ---------------------------------------------------------------------------
// Absolute values and their histogram
// ---------------------------------------------------------------------------
pub open spec fn absv(v: int) -> int {
    if v < 0 {
        -v
    } else {
        v
    }
}

/// `|x_i|` per position.
pub open spec fn abs_seq(x: Point) -> Seq<int> {
    Seq::new(24, |i: int| absv(x[i] as int))
}

/// `hist(x)[v]` = number of positions with `|x_i| = v`, for `v < 16`.
pub open spec fn hist(x: Point) -> Seq<int> {
    Seq::new(16, |v: int| occ(abs_seq(x), v))
}

/// Every coordinate is below 16 in absolute value.
pub open spec fn small(x: Point) -> bool {
    forall|i: int| 0 <= i < 24 ==> -16 < #[trigger] x[i] < 16
}

proof fn lemma_norm_psum_upto(x: Point, k: nat)
    requires
        k <= 24,
    ensures
        norm_upto(x, k) == psum(|i: int| x[i] * x[i], k as int),
        coord_sum_upto(x, k) == psum(|i: int| x[i] as int, k as int),
    decreases k,
{
    if k > 0 {
        lemma_norm_psum_upto(x, (k - 1) as nat);
    }
}

/// Norm and coordinate sum as sums over the positions.
pub(crate) proof fn lemma_norm_psum(x: Point)
    ensures
        norm(x) == psum(|i: int| x[i] * x[i], 24),
        coord_sum(x) == psum(|i: int| x[i] as int, 24),
{
    lemma_norm_psum_upto(x, 24);
}

/// A sum over the positions of a function of `|x_i|` is read off the
/// histogram.
pub(crate) proof fn lemma_hist_sum(x: Point, f: spec_fn(int) -> int)
    requires
        small(x),
    ensures
        has_counts(abs_seq(x), hist(x)),
        psum(|i: int| f(absv(x[i] as int)), 24) == weighted(f, hist(x)),
        weighted(f, hist(x)) == f(0) * hist(x)[0] + f(1) * hist(x)[1] + f(2) * hist(x)[2] + f(3)
            * hist(x)[3] + f(4) * hist(x)[4] + f(5) * hist(x)[5] + f(6) * hist(x)[6] + f(7) * hist(
            x,
        )[7] + f(8) * hist(x)[8] + f(9) * hist(x)[9] + f(10) * hist(x)[10] + f(11) * hist(x)[11]
            + f(12) * hist(x)[12] + f(13) * hist(x)[13] + f(14) * hist(x)[14] + f(15) * hist(
            x,
        )[15],
{
    let s = abs_seq(x);
    let h = hist(x);
    assert forall|j: int| 0 <= j < s.len() implies 0 <= #[trigger] s[j] < h.len() by {
        assert(-16 < x[j] < 16);
    }
    assert forall|k: int| 0 <= k < h.len() implies occ(s, k) == #[trigger] h[k] by {}
    lemma_occ_counts(s, h);
    lemma_counts_sum(s, h, f);
    lemma_psum_ext(|j: int| f(s[j]), |i: int| f(absv(x[i] as int)), 24);
    reveal_with_fuel(psum, 17);
}


// ---------------------------------------------------------------------------
// The ball and the count vector of a point
// ---------------------------------------------------------------------------
/// The origin.
pub open spec fn is_origin(x: Point) -> bool {
    forall|i: int| 0 <= i < 24 ==> x[i] == 0
}

/// `x` is the origin or a lattice point of a shell `2 ..= 13`.
pub open spec fn in_ball(x: Point) -> bool {
    is_origin(x) || (is_member(x) && norm(x) % 16 == 0 && 2 <= norm(x) / 16 <= 13)
}

/// `[n14, n10, n6, n2, n12, n8, n4]` of an even point.
pub open spec fn even_counts(x: Point) -> Seq<int> {
    let h = hist(x);
    seq![h[14], h[10], h[6], h[2], h[12], h[8], h[4]]
}

/// `[n13, n11, n9, n7, n5, n3]` of an odd point.
pub open spec fn odd_counts(x: Point) -> Seq<int> {
    let h = hist(x);
    seq![h[13], h[11], h[9], h[7], h[5], h[3]]
}

/// Minus signs of `x` on the support of `c`.
pub open spec fn neg_on(x: Point, c: u32) -> int {
    psum(neg_on_f(x, c), 24)
}

pub open spec fn neg_on_f(x: Point, c: u32) -> spec_fn(int) -> int {
    |i: int|
        if bit(c, i as u32) == 1 && x[i] < 0 {
            1int
        } else {
            0int
        }
}

/// What a codeword is known to be.
pub(crate) proof fn lemma_codeword_facts(c: u32)
    requires
        is_codeword(c),
    ensures
        is_code_weight(pc(c)),
        c < 0x100_0000,
        pc_upto(c, 24) == pc(c),
{
    let m = choose|m: u32| m < 4096 && #[trigger] encode_spec(m) == c;
    lemma_codeword_weights(m);
    lemma_pc_24(c);
}

/// `Σ_{i < k} bit(c, i)` is the number of set bits below `k`.
pub(crate) proof fn lemma_psum_bits(c: u32, k: int)
    requires
        0 <= k <= 24,
    ensures
        psum(|i: int| bit(c, i as u32) as int, k) == pc_upto(c, k as u32),
    decreases k,
{
    if k > 0 {
        lemma_psum_bits(c, k - 1);
        lemma_pc_upto_step(c, k - 1);
        assert(((k - 1) + 1) as u32 == k as u32);
    } else {
        assert(pc_upto(c, 0) == 0);
    }
}

pub(crate) proof fn lemma_psum_zero_all(f: spec_fn(int) -> int, n: int)
    requires
        forall|i: int| 0 <= i < n ==> #[trigger] f(i) == 0,
    ensures
        psum(f, n) == 0,
    decreases n,
{
    if n > 0 {
        lemma_psum_zero_all(f, n - 1);
    }
}

pub(crate) proof fn lemma_psum_const(n: int)
    requires
        0 <= n,
    ensures
        psum(|i: int| 1int, n) == n,
    decreases n,
{
    if n > 0 {
        lemma_psum_const(n - 1);
    }
}

/// Each coordinate's square is bounded by the norm.
pub(crate) proof fn lemma_coord_small(x: Point)
    requires
        norm(x) <= 208,
    ensures
        small(x),
        forall|i: int| 0 <= i < 24 ==> -15 < #[trigger] x[i] < 15,
{
    lemma_norm_psum(x);
    let f = |i: int| x[i] * x[i];
    assert forall|j: int| 0 <= j < 24 implies #[trigger] f(j) >= 0 by {
        let v = x[j] as int;
        assert(v * v >= 0) by (nonlinear_arith);
    }
    assert forall|i: int| 0 <= i < 24 implies -15 < #[trigger] x[i] < 15 by {
        lemma_psum_single(f, i, 24);
        let v = x[i] as int;
        assert(v * v >= 0) by (nonlinear_arith);
        if v >= 15 {
            assert(v * v >= 225) by (nonlinear_arith)
                requires
                    v >= 15,
            ;
        }
        if v <= -15 {
            assert(v * v >= 225) by (nonlinear_arith)
                requires
                    v <= -15,
            ;
        }
    }
}

/// A non-negative summand is at most the sum.
pub(crate) proof fn lemma_psum_single(f: spec_fn(int) -> int, i: int, n: int)
    requires
        0 <= i < n,
        forall|j: int| 0 <= j < n ==> #[trigger] f(j) >= 0,
    ensures
        f(i) <= psum(f, n),
    decreases n,
{
    lemma_psum_nonneg(f, n - 1);
    if i < n - 1 {
        lemma_psum_single(f, i, n - 1);
    }
}

/// Three non-negative summands at distinct positions are at most the sum.
pub(crate) proof fn lemma_psum_triple(f: spec_fn(int) -> int, i: int, j: int, k: int, n: int)
    requires
        0 <= i < j < k < n,
        forall|q: int| 0 <= q < n ==> #[trigger] f(q) >= 0,
    ensures
        f(i) + f(j) + f(k) <= psum(f, n),
    decreases n,
{
    if k < n - 1 {
        lemma_psum_triple(f, i, j, k, n - 1);
    } else {
        lemma_psum_pair(f, i, j, n - 1);
    }
}

/// Two non-negative summands at distinct positions are at most the sum.
pub(crate) proof fn lemma_psum_pair(f: spec_fn(int) -> int, i: int, j: int, n: int)
    requires
        0 <= i < j < n,
        forall|k: int| 0 <= k < n ==> #[trigger] f(k) >= 0,
    ensures
        f(i) + f(j) <= psum(f, n),
    decreases n,
{
    if j < n - 1 {
        lemma_psum_pair(f, i, j, n - 1);
    } else {
        lemma_psum_single(f, i, n - 1);
    }
}

/// A pointwise smaller summand has a smaller sum.
proof fn lemma_psum_le(f: spec_fn(int) -> int, g: spec_fn(int) -> int, n: int)
    requires
        forall|k: int| 0 <= k < n ==> #[trigger] f(k) <= g(k),
    ensures
        psum(f, n) <= psum(g, n),
    decreases n,
{
    if n > 0 {
        lemma_psum_le(f, g, n - 1);
    }
}

/// Histogram entries are counts.
pub(crate) proof fn lemma_hist_nonneg(x: Point)
    ensures
        forall|v: int| 0 <= v < 16 ==> 0 <= #[trigger] hist(x)[v],
{
    assert forall|v: int| 0 <= v < 16 implies 0 <= #[trigger] hist(x)[v] by {
        lemma_psum_nonneg(ind(abs_seq(x), v), 24);
    }
}

/// A value that no coordinate takes has count zero.
pub(crate) proof fn lemma_hist_absent(x: Point, v: int)
    requires
        0 <= v < 16,
        forall|i: int| 0 <= i < 24 ==> #[trigger] absv(x[i] as int) != v,
    ensures
        hist(x)[v] == 0,
{
    lemma_psum_zero_all(ind(abs_seq(x), v), 24);
}

/// A value that some coordinate takes has a positive count.
pub(crate) proof fn lemma_hist_present(x: Point, i: int)
    requires
        0 <= i < 24,
        absv(x[i] as int) < 16,
    ensures
        hist(x)[absv(x[i] as int)] >= 1,
{
    let v = absv(x[i] as int);
    let f = ind(abs_seq(x), v);
    assert forall|j: int| 0 <= j < 24 implies #[trigger] f(j) >= 0 by {}
    lemma_psum_single(f, i, 24);
}

/// The counts add up to 24.
pub(crate) proof fn lemma_hist_total(x: Point)
    requires
        small(x),
    ensures
        h_total(hist(x)) == 24,
{
    let h = hist(x);
    let f_one = |u: int| 1int;
    lemma_hist_sum(x, f_one);
    lemma_psum_ext(|i: int| 1int, |i: int| f_one(absv(x[i] as int)), 24);
    lemma_psum_const(24);
    assert(f_one(0) * h[0] == 1 * h[0]);
    assert(f_one(1) * h[1] == 1 * h[1]);
    assert(f_one(2) * h[2] == 1 * h[2]);
    assert(f_one(3) * h[3] == 1 * h[3]);
    assert(f_one(4) * h[4] == 1 * h[4]);
    assert(f_one(5) * h[5] == 1 * h[5]);
    assert(f_one(6) * h[6] == 1 * h[6]);
    assert(f_one(7) * h[7] == 1 * h[7]);
    assert(f_one(8) * h[8] == 1 * h[8]);
    assert(f_one(9) * h[9] == 1 * h[9]);
    assert(f_one(10) * h[10] == 1 * h[10]);
    assert(f_one(11) * h[11] == 1 * h[11]);
    assert(f_one(12) * h[12] == 1 * h[12]);
    assert(f_one(13) * h[13] == 1 * h[13]);
    assert(f_one(14) * h[14] == 1 * h[14]);
    assert(f_one(15) * h[15] == 1 * h[15]);
}

/// The norm from the counts.
pub(crate) proof fn lemma_hist_norm(x: Point)
    requires
        small(x),
    ensures
        norm(x) == h_norm(hist(x)),
{
    let h = hist(x);
    lemma_norm_psum(x);
    let f_sq = |u: int| u * u;
    lemma_hist_sum(x, f_sq);
    assert forall|i: int| 0 <= i < 24 implies #[trigger] (x[i] * x[i]) == f_sq(absv(x[i] as int)) by {
        let v = x[i] as int;
        assert(v * v == (-v) * (-v)) by (nonlinear_arith);
    }
    lemma_psum_ext(|i: int| x[i] * x[i], |i: int| f_sq(absv(x[i] as int)), 24);
    assert(f_sq(0) * h[0] == 0 * h[0]);
    assert(f_sq(1) * h[1] == 1 * h[1]);
    assert(f_sq(2) * h[2] == 4 * h[2]);
    assert(f_sq(3) * h[3] == 9 * h[3]);
    assert(f_sq(4) * h[4] == 16 * h[4]);
    assert(f_sq(5) * h[5] == 25 * h[5]);
    assert(f_sq(6) * h[6] == 36 * h[6]);
    assert(f_sq(7) * h[7] == 49 * h[7]);
    assert(f_sq(8) * h[8] == 64 * h[8]);
    assert(f_sq(9) * h[9] == 81 * h[9]);
    assert(f_sq(10) * h[10] == 100 * h[10]);
    assert(f_sq(11) * h[11] == 121 * h[11]);
    assert(f_sq(12) * h[12] == 144 * h[12]);
    assert(f_sq(13) * h[13] == 169 * h[13]);
    assert(f_sq(14) * h[14] == 196 * h[14]);
    assert(f_sq(15) * h[15] == 225 * h[15]);
}

/// `Σ |x_i|` from the counts.
pub(crate) proof fn lemma_hist_abs_sum(x: Point)
    requires
        small(x),
    ensures
        psum(|i: int| absv(x[i] as int), 24) == h_abs(hist(x)),
{
    let h = hist(x);
    let f_id = |u: int| u;
    lemma_hist_sum(x, f_id);
    lemma_psum_ext(|i: int| absv(x[i] as int), |i: int| f_id(absv(x[i] as int)), 24);
    assert(f_id(0) * h[0] == 0 * h[0]);
    assert(f_id(1) * h[1] == 1 * h[1]);
    assert(f_id(2) * h[2] == 2 * h[2]);
    assert(f_id(3) * h[3] == 3 * h[3]);
    assert(f_id(4) * h[4] == 4 * h[4]);
    assert(f_id(5) * h[5] == 5 * h[5]);
    assert(f_id(6) * h[6] == 6 * h[6]);
    assert(f_id(7) * h[7] == 7 * h[7]);
    assert(f_id(8) * h[8] == 8 * h[8]);
    assert(f_id(9) * h[9] == 9 * h[9]);
    assert(f_id(10) * h[10] == 10 * h[10]);
    assert(f_id(11) * h[11] == 11 * h[11]);
    assert(f_id(12) * h[12] == 12 * h[12]);
    assert(f_id(13) * h[13] == 13 * h[13]);
    assert(f_id(14) * h[14] == 14 * h[14]);
    assert(f_id(15) * h[15] == 15 * h[15]);
}

/// The number of coordinates with `|x_i| ≡ 2 (mod 4)`.
pub(crate) proof fn lemma_hist_mod4(x: Point)
    requires
        small(x),
    ensures
        psum(|i: int| if absv(x[i] as int) % 4 == 2 { 1int } else { 0int }, 24) == h_mod4(hist(x)),
{
    let h = hist(x);
    let f_w = |u: int| if u % 4 == 2 { 1int } else { 0int };
    lemma_hist_sum(x, f_w);
    lemma_psum_ext(
        |i: int| if absv(x[i] as int) % 4 == 2 { 1int } else { 0int },
        |i: int| f_w(absv(x[i] as int)),
        24,
    );
    assert(f_w(0) * h[0] == 0 * h[0]);
    assert(f_w(1) * h[1] == 0 * h[1]);
    assert(f_w(2) * h[2] == 1 * h[2]);
    assert(f_w(3) * h[3] == 0 * h[3]);
    assert(f_w(4) * h[4] == 0 * h[4]);
    assert(f_w(5) * h[5] == 0 * h[5]);
    assert(f_w(6) * h[6] == 1 * h[6]);
    assert(f_w(7) * h[7] == 0 * h[7]);
    assert(f_w(8) * h[8] == 0 * h[8]);
    assert(f_w(9) * h[9] == 0 * h[9]);
    assert(f_w(10) * h[10] == 1 * h[10]);
    assert(f_w(11) * h[11] == 0 * h[11]);
    assert(f_w(12) * h[12] == 0 * h[12]);
    assert(f_w(13) * h[13] == 0 * h[13]);
    assert(f_w(14) * h[14] == 1 * h[14]);
    assert(f_w(15) * h[15] == 0 * h[15]);
}

pub open spec fn h_total(h: Seq<int>) -> int {
    h[0] + h[1] + h[2] + h[3] + h[4] + h[5] + h[6] + h[7] + h[8] + h[9] + h[10] + h[11] + h[12] + h[13] + h[14] + h[15]
}

pub open spec fn h_norm(h: Seq<int>) -> int {
    h[1] + 4 * h[2] + 9 * h[3] + 16 * h[4] + 25 * h[5] + 36 * h[6] + 49 * h[7] + 64 * h[8] + 81 * h[9] + 100 * h[10] + 121 * h[11] + 144 * h[12] + 169 * h[13] + 196 * h[14] + 225 * h[15]
}

pub open spec fn h_abs(h: Seq<int>) -> int {
    h[1] + 2 * h[2] + 3 * h[3] + 4 * h[4] + 5 * h[5] + 6 * h[6] + 7 * h[7] + 8 * h[8] + 9 * h[9] + 10 * h[10] + 11 * h[11] + 12 * h[12] + 13 * h[13] + 14 * h[14] + 15 * h[15]
}

pub open spec fn h_mod4(h: Seq<int>) -> int {
    h[2] + h[6] + h[10] + h[14]
}


/// One even coordinate modulo 8: `v ≡ |v| + 4·[on ∧ v < 0]`.
proof fn lemma_even_coord_mod(v: int, on: bool)
    requires
        v % 2 == 0,
        on == (absv(v) % 4 == 2),
    ensures
        (v - absv(v) - 4 * (if on && v < 0 { 1int } else { 0int })) % 8 == 0,
{
    let a = absv(v);
    if v < 0 {
        if a % 4 == 2 {
            assert((-2 * a - 4) % 8 == 0) by (nonlinear_arith)
                requires
                    a % 4 == 2,
            ;
        } else {
            assert(a % 4 == 0);
            assert((-2 * a) % 8 == 0) by (nonlinear_arith)
                requires
                    a % 4 == 0,
            ;
        }
    }
}

/// For an even point whose support pattern is `c`, the coordinate sum is
/// `Σ |x_i| + 4·(minus signs on the support)` modulo 8.
pub(crate) proof fn lemma_even_sum_mod8(x: Point, c: u32)
    requires
        forall|i: int| 0 <= i < 24 ==> #[trigger] (x[i] as int) % 2 == 0,
        forall|i: int|
            0 <= i < 24 ==> (bit(c, i as u32) == 1) == (#[trigger] absv(x[i] as int) % 4 == 2),
    ensures
        (coord_sum(x) - psum(|i: int| absv(x[i] as int), 24) - 4 * neg_on(x, c)) % 8 == 0,
{
    lemma_norm_psum(x);
    let t = neg_on_f(x, c);
    let a = |i: int| absv(x[i] as int);
    let g = |i: int| a(i) + 4 * t(i);
    let q = |i: int| (x[i] - a(i) - 4 * t(i)) / 8;
    assert forall|i: int| 0 <= i < 24 implies #[trigger] (x[i] as int) == g(i) + 8 * q(i) by {
        assert((x[i] as int) % 2 == 0);
        assert((bit(c, i as u32) == 1) == (absv(x[i] as int) % 4 == 2));
        lemma_even_coord_mod(x[i] as int, bit(c, i as u32) == 1);
    }
    lemma_psum_linear(|i: int| x[i] as int, g, q, 8, 24);
    lemma_psum_linear(g, a, t, 4, 24);
    lemma_psum_ext(a, |i: int| absv(x[i] as int), 24);
    let cs = coord_sum(x);
    let s0 = psum(|i: int| absv(x[i] as int), 24);
    let n = neg_on(x, c);
    let qq = psum(q, 24);
    assert(cs == s0 + 4 * n + 8 * qq);
    assert((cs - s0 - 4 * n) % 8 == 0) by (nonlinear_arith)
        requires
            cs == s0 + 4 * n + 8 * qq,
    ;
}

/// The structure of an even lattice point of norm at most 208.
pub(crate) proof fn lemma_even_parse(x: Point)
    requires
        is_member(x),
        par(x) == 0,
        norm(x) <= 208,
    ensures
        small(x),
        forall|i: int| 0 <= i < 24 ==> #[trigger] absv(x[i] as int) % 2 == 0,
        forall|i: int|
            0 <= i < 24 ==> (bit(golay_word(x), i as u32) == 1) == (#[trigger] absv(x[i] as int) % 4
                == 2),
        forall|i: int| 0 <= i < 24 ==> #[trigger] bit(golay_word(x), i as u32) <= 1,
        forall|v: int| 0 <= v < 16 ==> 0 <= #[trigger] hist(x)[v],
        hist(x)[1] == 0 && hist(x)[3] == 0 && hist(x)[5] == 0 && hist(x)[7] == 0,
        hist(x)[9] == 0 && hist(x)[11] == 0 && hist(x)[13] == 0 && hist(x)[15] == 0,
        h_total(hist(x)) == 24,
        h_norm(hist(x)) == norm(x),
        h_mod4(hist(x)) == pc(golay_word(x)),
        is_code_weight(pc(golay_word(x))),
        golay_word(x) < 0x100_0000,
        (h_abs(hist(x)) + 4 * neg_on(x, golay_word(x))) % 8 == 0,
{
    let c = golay_word(x);
    lemma_coord_small(x);
    lemma_word_bits(x);
    lemma_codeword_facts(c);
    assert forall|i: int| 0 <= i < 24 implies #[trigger] (x[i] as int) % 2 == 0 && absv(
        x[i] as int,
    ) % 2 == 0 by {
        assert((x[i] as int) % 2 == par(x));
    }
    assert forall|i: int| 0 <= i < 24 implies (bit(c, i as u32) == 1) == (#[trigger] absv(
        x[i] as int,
    ) % 4 == 2) && bit(c, i as u32) <= 1 by {
        assert((x[i] as int) % 2 == par(x));
        assert(bit(c, i as u32) == (if on_word(x, i) { 1u32 } else { 0u32 }));
    }
    lemma_hist_nonneg(x);
    assert forall|v: int| 0 <= v < 16 && v % 2 == 1 implies #[trigger] hist(x)[v] == 0 by {
        assert forall|i: int| 0 <= i < 24 implies #[trigger] absv(x[i] as int) != v by {
            assert(absv(x[i] as int) % 2 == 0);
        }
        lemma_hist_absent(x, v);
    }
    assert(hist(x)[1] == 0 && hist(x)[3] == 0 && hist(x)[5] == 0 && hist(x)[7] == 0);
    assert(hist(x)[9] == 0 && hist(x)[11] == 0 && hist(x)[13] == 0 && hist(x)[15] == 0);
    lemma_hist_total(x);
    lemma_hist_norm(x);
    lemma_hist_abs_sum(x);
    lemma_hist_mod4(x);
    lemma_psum_bits(c, 24);
    lemma_psum_ext(
        |i: int| bit(c, i as u32) as int,
        |i: int| if absv(x[i] as int) % 4 == 2 { 1int } else { 0int },
        24,
    );
    lemma_even_sum_mod8(x, c);
}


/// `g(a) = a` for `a ≡ 1 (mod 4)`, `−a` otherwise: an odd coordinate off the
/// support is `g(|x_i|)`, on it `−g(|x_i|)`.
pub open spec fn odd_g(a: int) -> int {
    if a % 4 == 1 {
        a
    } else {
        -a
    }
}

/// The coordinate with absolute value `a` at a position on (or off) the
/// support, in an odd point.
pub open spec fn odd_coord(a: int, on: bool) -> int {
    if on {
        -odd_g(a)
    } else {
        odd_g(a)
    }
}

pub open spec fn h_g(h: Seq<int>) -> int {
    h[1] - 3 * h[3] + 5 * h[5] - 7 * h[7] + 9 * h[9] - 11 * h[11] + 13 * h[13] - 15 * h[15]
}

/// `Σ g(|x_i|)` from the counts.
pub(crate) proof fn lemma_hist_g(x: Point)
    requires
        small(x),
        forall|i: int| 0 <= i < 24 ==> #[trigger] absv(x[i] as int) % 2 == 1,
    ensures
        psum(|i: int| odd_g(absv(x[i] as int)), 24) == h_g(hist(x)),
{
    let h = hist(x);
    let f_g = |u: int| odd_g(u);
    lemma_hist_sum(x, f_g);
    lemma_psum_ext(|i: int| odd_g(absv(x[i] as int)), |i: int| f_g(absv(x[i] as int)), 24);
    assert forall|v: int| 0 <= v < 16 && v % 2 == 0 implies #[trigger] h[v] == 0 by {
        assert forall|i: int| 0 <= i < 24 implies #[trigger] absv(x[i] as int) != v by {
            assert(absv(x[i] as int) % 2 == 1);
        }
        lemma_hist_absent(x, v);
    }
    assert(h[0] == 0 && h[2] == 0 && h[4] == 0 && h[6] == 0 && h[8] == 0 && h[10] == 0 && h[12]
        == 0 && h[14] == 0);
    assert(f_g(0) * h[0] == 0 * h[0]);
    assert(f_g(1) * h[1] == 1 * h[1]);
    assert(f_g(2) * h[2] == -2 * h[2]);
    assert(f_g(3) * h[3] == -3 * h[3]);
    assert(f_g(4) * h[4] == -4 * h[4]);
    assert(f_g(5) * h[5] == 5 * h[5]);
    assert(f_g(6) * h[6] == -6 * h[6]);
    assert(f_g(7) * h[7] == -7 * h[7]);
    assert(f_g(8) * h[8] == -8 * h[8]);
    assert(f_g(9) * h[9] == 9 * h[9]);
    assert(f_g(10) * h[10] == -10 * h[10]);
    assert(f_g(11) * h[11] == -11 * h[11]);
    assert(f_g(12) * h[12] == -12 * h[12]);
    assert(f_g(13) * h[13] == 13 * h[13]);
    assert(f_g(14) * h[14] == -14 * h[14]);
    assert(f_g(15) * h[15] == -15 * h[15]);
}

/// One odd coordinate modulo 8: `v ≡ g(|v|) − 2·[on]`.
proof fn lemma_odd_coord_mod(a: int, on: bool)
    requires
        a > 0,
        a % 2 == 1,
    ensures
        (odd_coord(a, on) - odd_g(a) + 2 * (if on { 1int } else { 0int })) % 8 == 0,
{
    if on {
        if a % 4 == 1 {
            assert((-2 * a + 2) % 8 == 0) by (nonlinear_arith)
                requires
                    a % 4 == 1,
            ;
        } else {
            assert((2 * a + 2) % 8 == 0) by (nonlinear_arith)
                requires
                    a % 4 == 3,
            ;
        }
    }
}

/// For an odd point whose coordinates follow the sign rule of `c`, the
/// coordinate sum is `Σ g(|x_i|) − 2·weight(c)` modulo 8.
pub(crate) proof fn lemma_odd_sum_mod8(x: Point, c: u32)
    requires
        forall|i: int| 0 <= i < 24 ==> #[trigger] absv(x[i] as int) % 2 == 1,
        forall|i: int| 0 <= i < 24 ==> #[trigger] bit(c, i as u32) <= 1,
        forall|i: int|
            0 <= i < 24 ==> #[trigger] x[i] == odd_coord(absv(x[i] as int), bit(c, i as u32) == 1),
    ensures
        (coord_sum(x) - psum(|i: int| odd_g(absv(x[i] as int)), 24) + 2 * pc_upto(c, 24)) % 8 == 0,
{
    lemma_norm_psum(x);
    lemma_psum_bits(c, 24);
    let b = |i: int| bit(c, i as u32) as int;
    let gg = |i: int| odd_g(absv(x[i] as int)) - 2 * b(i);
    let q = |i: int| (x[i] - odd_g(absv(x[i] as int)) + 2 * b(i)) / 8;
    assert forall|i: int| 0 <= i < 24 implies #[trigger] (x[i] as int) == gg(i) + 8 * q(i) by {
        assert(absv(x[i] as int) % 2 == 1);
        assert(bit(c, i as u32) <= 1);
        lemma_odd_coord_mod(absv(x[i] as int), bit(c, i as u32) == 1);
    }
    lemma_psum_linear(|i: int| x[i] as int, gg, q, 8, 24);
    lemma_psum_linear(gg, |i: int| odd_g(absv(x[i] as int)), b, -2, 24);
    lemma_psum_ext(b, |i: int| bit(c, i as u32) as int, 24);
    let cs = coord_sum(x);
    let sg = psum(|i: int| odd_g(absv(x[i] as int)), 24);
    let w = pc_upto(c, 24);
    let qq = psum(q, 24);
    assert(cs == sg - 2 * w + 8 * qq);
    assert((cs - sg + 2 * w) % 8 == 0) by (nonlinear_arith)
        requires
            cs == sg - 2 * w + 8 * qq,
    ;
}

/// The structure of an odd lattice point of norm at most 208.
pub(crate) proof fn lemma_odd_parse(x: Point)
    requires
        is_member(x),
        par(x) == 1,
        norm(x) <= 208,
    ensures
        small(x),
        forall|i: int| 0 <= i < 24 ==> #[trigger] absv(x[i] as int) % 2 == 1,
        forall|i: int| 0 <= i < 24 ==> #[trigger] bit(golay_word(x), i as u32) <= 1,
        forall|i: int|
            0 <= i < 24 ==> #[trigger] x[i] == odd_coord(
                absv(x[i] as int),
                bit(golay_word(x), i as u32) == 1,
            ),
        forall|v: int| 0 <= v < 16 ==> 0 <= #[trigger] hist(x)[v],
        hist(x)[0] == 0 && hist(x)[2] == 0 && hist(x)[4] == 0 && hist(x)[6] == 0,
        hist(x)[8] == 0 && hist(x)[10] == 0 && hist(x)[12] == 0 && hist(x)[14] == 0,
        hist(x)[15] == 0,
        h_total(hist(x)) == 24,
        h_norm(hist(x)) == norm(x),
        (hist(x)[1] + hist(x)[7] + hist(x)[9]) % 2 == 1,
        golay_word(x) < 0x100_0000,
{
    let c = golay_word(x);
    let h = hist(x);
    lemma_coord_small(x);
    lemma_word_bits(x);
    lemma_codeword_facts(c);
    assert forall|i: int| 0 <= i < 24 implies #[trigger] absv(x[i] as int) % 2 == 1 && bit(
        c,
        i as u32,
    ) <= 1 && x[i] == odd_coord(absv(x[i] as int), bit(c, i as u32) == 1) by {
        assert((x[i] as int) % 2 == par(x));
        assert(bit(c, i as u32) == (if on_word(x, i) { 1u32 } else { 0u32 }));
    }
    lemma_hist_nonneg(x);
    assert forall|v: int| 0 <= v < 16 && (v % 2 == 0 || v == 15) implies #[trigger] hist(x)[v]
        == 0 by {
        assert forall|i: int| 0 <= i < 24 implies #[trigger] absv(x[i] as int) != v by {
            assert(absv(x[i] as int) % 2 == 1);
            assert(-15 < x[i] < 15);
        }
        lemma_hist_absent(x, v);
    }
    assert(h[0] == 0 && h[2] == 0 && h[4] == 0 && h[6] == 0 && h[8] == 0 && h[10] == 0 && h[12]
        == 0 && h[14] == 0 && h[15] == 0);
    lemma_hist_total(x);
    lemma_hist_norm(x);
    lemma_hist_g(x);
    lemma_odd_sum_mod8(x, c);
    let cs = coord_sum(x);
    let w = pc(c);
    assert(w % 4 == 0);
    assert(cs % 8 == 4);
    let e = h[1] + h[7] + h[9];
    assert((h_g(h) + 4 * e) % 8 == 0);
    assert(e % 2 == 1) by (nonlinear_arith)
        requires
            (cs - h_g(h) + 2 * w) % 8 == 0,
            w % 4 == 0,
            cs % 8 == 4,
            (h_g(h) + 4 * e) % 8 == 0,
    ;
}


// ---------------------------------------------------------------------------
// Arrangements of a point along a codeword
// ---------------------------------------------------------------------------
/// Word kind of `|v| ∈ {14, 10, 6, 2}` (0 ..= 3).
pub open spec fn wkind(a: int) -> int {
    (14 - a) / 4
}

pub open spec fn wval(k: int) -> int {
    14 - 4 * k
}

/// Off-support kind of `|v| ∈ {12, 8, 4, 0}` (0 ..= 3; 3 is the zero kind).
pub open spec fn okind(a: int) -> int {
    (12 - a) / 4
}

pub open spec fn oval(k: int) -> int {
    12 - 4 * k
}

/// Odd kind of `|v| ∈ {13, 11, …, 1}` (0 ..= 6).
pub open spec fn dkind(a: int) -> int {
    (13 - a) / 2
}

pub open spec fn dval(k: int) -> int {
    13 - 2 * k
}

/// `1` for a negative coordinate.
pub open spec fn neg_bit(v: int) -> int {
    if v < 0 {
        1
    } else {
        0
    }
}

pub open spec fn on_kinds_f(x: Point, c: u32) -> spec_fn(int) -> Option<int> {
    |i: int|
        if bit(c, i as u32) == 1 {
            Some(wkind(absv(x[i] as int)))
        } else {
            None
        }
}

pub open spec fn off_kinds_f(x: Point, c: u32) -> spec_fn(int) -> Option<int> {
    |i: int|
        if bit(c, i as u32) == 0 {
            Some(okind(absv(x[i] as int)))
        } else {
            None
        }
}

pub open spec fn on_signs_f(x: Point, c: u32) -> spec_fn(int) -> Option<int> {
    |i: int|
        if bit(c, i as u32) == 1 {
            Some(neg_bit(x[i] as int))
        } else {
            None
        }
}

pub open spec fn off_signs_f(x: Point, c: u32) -> spec_fn(int) -> Option<int> {
    |i: int|
        if bit(c, i as u32) == 0 && x[i] != 0 {
            Some(neg_bit(x[i] as int))
        } else {
            None
        }
}

pub open spec fn all_kinds_f(x: Point) -> spec_fn(int) -> Option<int> {
    |i: int| Some(dkind(absv(x[i] as int)))
}

/// Word kinds on the support of `c`, positions ascending.
pub open spec fn on_kinds(x: Point, c: u32) -> Seq<int> {
    collect(on_kinds_f(x, c), 24)
}

/// Off-support kinds, positions ascending.
pub open spec fn off_kinds(x: Point, c: u32) -> Seq<int> {
    collect(off_kinds_f(x, c), 24)
}

/// Minus signs on the support.
pub open spec fn on_signs(x: Point, c: u32) -> Seq<int> {
    collect(on_signs_f(x, c), 24)
}

/// Minus signs of the non-zero off-support coordinates.
pub open spec fn off_signs(x: Point, c: u32) -> Seq<int> {
    collect(off_signs_f(x, c), 24)
}

/// Odd kinds of all 24 positions.
pub open spec fn all_kinds(x: Point) -> Seq<int> {
    collect(all_kinds_f(x), 24)
}

/// Non-zero kinds among the first `n` off-support slots.
pub open spec fn nzc(af: Seq<int>, n: int) -> int
    decreases n,
{
    if n <= 0 {
        0
    } else {
        nzc(af, n - 1) + if af[n - 1] != 3 {
            1int
        } else {
            0int
        }
    }
}

/// `v` with the sign bit `b` applied.
pub open spec fn sgn(b: int, v: int) -> int {
    if b == 1 {
        -v
    } else {
        v
    }
}

/// Coordinate `i` of the even point with support `c`, kind arrangements
/// `ao`/`af` and sign bits `so`/`sf`.
pub open spec fn even_coord(
    c: u32,
    ao: Seq<int>,
    af: Seq<int>,
    so: Seq<int>,
    sf: Seq<int>,
    i: int,
) -> int {
    if bit(c, i as u32) == 1 {
        sgn(so[on_slot(c, i)], wval(ao[on_slot(c, i)]))
    } else {
        let k = af[off_slot(c, i)];
        if k == 3 {
            0
        } else {
            sgn(sf[nzc(af, off_slot(c, i))], oval(k))
        }
    }
}

/// A gathering present exactly on the support has one entry per set bit.
pub(crate) proof fn lemma_collect_len_on(f: spec_fn(int) -> Option<int>, c: u32, k: int)
    requires
        0 <= k <= 24,
        forall|i: int| 0 <= i < k ==> ((#[trigger] f(i)) is Some) == (bit(c, i as u32) == 1),
    ensures
        collect(f, k).len() == pc_upto(c, k as u32),
    decreases k,
{
    if k > 0 {
        lemma_collect_len_on(f, c, k - 1);
        lemma_pc_upto_step(c, k - 1);
        assert(((k - 1) + 1) as u32 == k as u32);
    } else {
        assert(pc_upto(c, 0) == 0);
    }
}

/// A gathering present exactly off the support has one entry per clear bit.
pub(crate) proof fn lemma_collect_len_off(f: spec_fn(int) -> Option<int>, c: u32, k: int)
    requires
        0 <= k <= 24,
        forall|i: int| 0 <= i < k ==> ((#[trigger] f(i)) is Some) == (bit(c, i as u32) == 0),
    ensures
        collect(f, k).len() == k - pc_upto(c, k as u32),
    decreases k,
{
    if k > 0 {
        lemma_collect_len_off(f, c, k - 1);
        lemma_pc_upto_step(c, k - 1);
        assert(((k - 1) + 1) as u32 == k as u32);
    } else {
        assert(pc_upto(c, 0) == 0);
    }
}

/// A gathering present everywhere is the function itself.
pub(crate) proof fn lemma_collect_all(f: spec_fn(int) -> Option<int>, k: int)
    requires
        0 <= k,
        forall|i: int| 0 <= i < k ==> (#[trigger] f(i)) is Some,
    ensures
        collect(f, k).len() == k,
        forall|i: int| 0 <= i < k ==> #[trigger] collect(f, k)[i] == f(i)->0,
    decreases k,
{
    if k > 0 {
        lemma_collect_all(f, k - 1);
        assert forall|i: int| 0 <= i < k implies #[trigger] collect(f, k)[i] == f(i)->0 by {
            if i < k - 1 {
                assert(collect(f, k)[i] == collect(f, k - 1)[i]);
            }
        }
    }
}

/// `nzc` reads only the first `n` slots.
pub(crate) proof fn lemma_nzc_prefix(a: Seq<int>, b: Seq<int>, n: int)
    requires
        0 <= n,
        forall|j: int| 0 <= j < n ==> #[trigger] a[j] == b[j],
    ensures
        nzc(a, n) == nzc(b, n),
    decreases n,
{
    if n > 0 {
        lemma_nzc_prefix(a, b, n - 1);
    }
}

pub(crate) proof fn lemma_nzc_bounds(a: Seq<int>, n: int)
    requires
        0 <= n,
    ensures
        0 <= nzc(a, n) <= n,
    decreases n,
{
    if n > 0 {
        lemma_nzc_bounds(a, n - 1);
    }
}

/// The off-support values of `x` are `0, 4, 8, 12`, so the non-zero ones
/// are the non-zero kinds: counting them along the positions.
pub(crate) proof fn lemma_off_signs_len(x: Point, c: u32, k: int)
    requires
        0 <= k <= 24,
        forall|i: int|
            0 <= i < k && bit(c, i as u32) == 0 ==> (x[i] == 0) == (#[trigger] okind(
                absv(x[i] as int),
            ) == 3),
    ensures
        collect(off_signs_f(x, c), k).len() == nzc(
            collect(off_kinds_f(x, c), k),
            collect(off_kinds_f(x, c), k).len() as int,
        ),
    decreases k,
{
    if k > 0 {
        lemma_off_signs_len(x, c, k - 1);
        let a0 = collect(off_kinds_f(x, c), k - 1);
        let a1 = collect(off_kinds_f(x, c), k);
        lemma_collect_prefix(off_kinds_f(x, c), k - 1, k);
        assert forall|j: int| 0 <= j < a0.len() implies #[trigger] a1[j] == a0[j] by {
            assert(a1.take(a0.len() as int)[j] == a1[j]);
        }
        lemma_nzc_prefix(a1, a0, a0.len() as int);
        if bit(c, (k - 1) as u32) == 0 {
            assert(okind(absv(x[k - 1] as int)) == (off_kinds_f(x, c))(k - 1)->0);
        }
    }
}


/// Bounds on the present values bound the gathering.
pub(crate) proof fn lemma_collect_range(f: spec_fn(int) -> Option<int>, k: int, lo: int, hi: int)
    requires
        forall|i: int| 0 <= i < k && (#[trigger] f(i)) is Some ==> lo <= f(i)->0 < hi,
    ensures
        forall|s: int| 0 <= s < collect(f, k).len() ==> lo <= #[trigger] collect(f, k)[s] < hi,
    decreases k,
{
    if k > 0 {
        lemma_collect_range(f, k - 1, lo, hi);
        assert forall|s: int| 0 <= s < collect(f, k).len() implies lo <= #[trigger] collect(f, k)[s]
            < hi by {
            if s < collect(f, k - 1).len() {
                assert(collect(f, k)[s] == collect(f, k - 1)[s]);
            }
        }
    }
}

/// An even point with support `c` is rebuilt from its arrangements.
pub(crate) proof fn lemma_even_arr_parse(x: Point, c: u32)
    requires
        forall|i: int| 0 <= i < 24 ==> -15 < #[trigger] x[i] < 15,
        forall|i: int| 0 <= i < 24 ==> #[trigger] absv(x[i] as int) % 2 == 0,
        forall|i: int|
            0 <= i < 24 ==> (bit(c, i as u32) == 1) == (#[trigger] absv(x[i] as int) % 4 == 2),
    ensures
        on_kinds(x, c).len() == pc_upto(c, 24),
        on_signs(x, c).len() == pc_upto(c, 24),
        off_kinds(x, c).len() == 24 - pc_upto(c, 24),
        off_signs(x, c).len() == nzc(off_kinds(x, c), 24 - pc_upto(c, 24)),
        forall|s: int| 0 <= s < pc_upto(c, 24) ==> 0 <= #[trigger] on_kinds(x, c)[s] < 4,
        forall|s: int| 0 <= s < pc_upto(c, 24) ==> 0 <= #[trigger] on_signs(x, c)[s] < 2,
        forall|s: int| 0 <= s < 24 - pc_upto(c, 24) ==> 0 <= #[trigger] off_kinds(x, c)[s] < 4,
        forall|s: int| 0 <= s < off_signs(x, c).len() ==> 0 <= #[trigger] off_signs(x, c)[s] < 2,
        forall|i: int|
            0 <= i < 24 ==> #[trigger] x[i] == even_coord(
                c,
                on_kinds(x, c),
                off_kinds(x, c),
                on_signs(x, c),
                off_signs(x, c),
                i,
            ),
{
    let fk = on_kinds_f(x, c);
    let fs = on_signs_f(x, c);
    let gk = off_kinds_f(x, c);
    let gs = off_signs_f(x, c);
    assert forall|i: int| 0 <= i < 24 implies #[trigger] bit(c, i as u32) <= 1 by {
        lemma_pc_upto_step(c, i);
    }
    lemma_collect_len_on(fk, c, 24);
    lemma_collect_len_on(fs, c, 24);
    lemma_collect_len_off(gk, c, 24);
    assert forall|i: int|
        0 <= i < 24 && bit(c, i as u32) == 0 implies (x[i] == 0) == (#[trigger] okind(
        absv(x[i] as int),
    ) == 3) by {}
    lemma_off_signs_len(x, c, 24);
    lemma_collect_range(fk, 24, 0, 4);
    lemma_collect_range(fs, 24, 0, 2);
    lemma_collect_range(gk, 24, 0, 4);
    lemma_collect_range(gs, 24, 0, 2);
    assert forall|i: int| 0 <= i < 24 implies #[trigger] x[i] == even_coord(
        c,
        on_kinds(x, c),
        off_kinds(x, c),
        on_signs(x, c),
        off_signs(x, c),
        i,
    ) by {
        let a = absv(x[i] as int);
        if bit(c, i as u32) == 1 {
            lemma_collect_len_on(fk, c, i);
            lemma_collect_len_on(fs, c, i);
            lemma_collect_at(fk, i, 24);
            lemma_collect_at(fs, i, 24);
            assert(wval(wkind(a)) == a);
        } else {
            lemma_collect_len_off(gk, c, i);
            lemma_collect_at(gk, i, 24);
            assert(oval(okind(a)) == a);
            if x[i] != 0 {
                lemma_collect_at(gs, i, 24);
                assert forall|j: int|
                    0 <= j < i && bit(c, j as u32) == 0 implies (x[j] == 0) == (#[trigger] okind(
                    absv(x[j] as int),
                ) == 3) by {}
                lemma_off_signs_len(x, c, i);
                let pre = collect(gk, i);
                lemma_collect_prefix(gk, i, 24);
                assert forall|j: int| 0 <= j < pre.len() implies #[trigger] off_kinds(x, c)[j]
                    == pre[j] by {
                    assert(off_kinds(x, c).take(pre.len() as int)[j] == off_kinds(x, c)[j]);
                }
                lemma_nzc_prefix(off_kinds(x, c), pre, pre.len() as int);
            }
        }
    }
}


pub(crate) proof fn lemma_pc_upto_mono(c: u32, a: int, b: int)
    requires
        0 <= a <= b <= 24,
    ensures
        pc_upto(c, a as u32) <= pc_upto(c, b as u32),
        a - pc_upto(c, a as u32) <= b - pc_upto(c, b as u32),
    decreases b - a,
{
    if a < b {
        lemma_pc_upto_mono(c, a, b - 1);
        lemma_pc_upto_step(c, b - 1);
        assert(((b - 1) + 1) as u32 == b as u32);
    }
}

pub(crate) proof fn lemma_nzc_mono(a: Seq<int>, m: int, n: int)
    requires
        0 <= m <= n,
    ensures
        nzc(a, m) <= nzc(a, n),
    decreases n - m,
{
    if m < n {
        lemma_nzc_mono(a, m, n - 1);
    }
}

/// The even point built from arrangements has exactly those arrangements.
pub(crate) proof fn lemma_even_arr_build(
    p: Point,
    c: u32,
    ao: Seq<int>,
    af: Seq<int>,
    so: Seq<int>,
    sf: Seq<int>,
)
    requires
        ao.len() == pc_upto(c, 24),
        so.len() == pc_upto(c, 24),
        af.len() == 24 - pc_upto(c, 24),
        sf.len() == nzc(af, af.len() as int),
        forall|s: int| 0 <= s < ao.len() ==> 0 <= #[trigger] ao[s] < 4,
        forall|s: int| 0 <= s < so.len() ==> 0 <= #[trigger] so[s] < 2,
        forall|s: int| 0 <= s < af.len() ==> 0 <= #[trigger] af[s] < 4,
        forall|s: int| 0 <= s < sf.len() ==> 0 <= #[trigger] sf[s] < 2,
        forall|i: int| 0 <= i < 24 ==> #[trigger] p[i] == even_coord(c, ao, af, so, sf, i),
    ensures
        on_kinds(p, c) == ao,
        off_kinds(p, c) == af,
        on_signs(p, c) == so,
        off_signs(p, c) == sf,
        forall|i: int| 0 <= i < 24 ==> -15 < #[trigger] p[i] < 15,
        forall|i: int| 0 <= i < 24 ==> #[trigger] absv(p[i] as int) % 2 == 0,
        forall|i: int|
            0 <= i < 24 ==> (bit(c, i as u32) == 1) == (#[trigger] absv(p[i] as int) % 4 == 2),
{
    let fk = on_kinds_f(p, c);
    let fs = on_signs_f(p, c);
    let gk = off_kinds_f(p, c);
    let gs = off_signs_f(p, c);
    lemma_nzc_bounds(af, af.len() as int);
    // per-position facts
    assert forall|i: int| 0 <= i < 24 implies {
        &&& -15 < #[trigger] p[i] < 15
        &&& absv(p[i] as int) % 2 == 0
        &&& (bit(c, i as u32) == 1) == (absv(p[i] as int) % 4 == 2)
        &&& (bit(c, i as u32) == 1 ==> wkind(absv(p[i] as int)) == ao[on_slot(c, i)]
            && neg_bit(p[i] as int) == so[on_slot(c, i)])
        &&& (bit(c, i as u32) == 0 ==> okind(absv(p[i] as int)) == af[off_slot(c, i)])
        &&& (bit(c, i as u32) == 0 ==> ((p[i] == 0) == (af[off_slot(c, i)] == 3)))
        &&& (bit(c, i as u32) == 0 && p[i] != 0 ==> neg_bit(p[i] as int) == sf[nzc(
            af,
            off_slot(c, i),
        )])
    } by {
        lemma_pc_upto_step(c, i);
        lemma_pc_upto_mono(c, i + 1, 24);
        if bit(c, i as u32) == 1 {
            let sl = on_slot(c, i);
            assert(0 <= sl < ao.len());
            assert(0 <= ao[sl] < 4 && 0 <= so[sl] < 2);
        } else {
            let sl = off_slot(c, i);
            assert(0 <= sl < af.len());
            assert(0 <= af[sl] < 4);
            if af[sl] != 3 {
                lemma_nzc_mono(af, sl + 1, af.len() as int);
                assert(0 <= nzc(af, sl) < sf.len()) by {
                    lemma_nzc_bounds(af, sl);
                }
                assert(0 <= sf[nzc(af, sl)] < 2);
            }
        }
    }
    // on-support gatherings
    lemma_collect_len_on(fk, c, 24);
    lemma_collect_len_on(fs, c, 24);
    assert forall|i: int| 0 <= i < 24 && (#[trigger] fk(i)) is Some implies fk(i)->0 == ao[collect(
        fk,
        i,
    ).len() as int] by {
        lemma_collect_len_on(fk, c, i);
    }
    lemma_collect_from(fk, ao, 24);
    assert(ao.take(ao.len() as int) =~= ao);
    assert forall|i: int| 0 <= i < 24 && (#[trigger] fs(i)) is Some implies fs(i)->0 == so[collect(
        fs,
        i,
    ).len() as int] by {
        lemma_collect_len_on(fs, c, i);
    }
    lemma_collect_from(fs, so, 24);
    assert(so.take(so.len() as int) =~= so);
    // off-support kinds
    lemma_collect_len_off(gk, c, 24);
    assert forall|i: int| 0 <= i < 24 && (#[trigger] gk(i)) is Some implies gk(i)->0 == af[collect(
        gk,
        i,
    ).len() as int] by {
        lemma_collect_len_off(gk, c, i);
    }
    lemma_collect_from(gk, af, 24);
    assert(af.take(af.len() as int) =~= af);
    // off-support signs
    assert forall|i: int|
        0 <= i < 24 && bit(c, i as u32) == 0 implies (p[i] == 0) == (#[trigger] okind(
        absv(p[i] as int),
    ) == 3) by {}
    lemma_off_signs_len(p, c, 24);
    assert forall|i: int| 0 <= i < 24 && (#[trigger] gs(i)) is Some implies gs(i)->0 == sf[collect(
        gs,
        i,
    ).len() as int] by {
        lemma_off_signs_len(p, c, i);
        lemma_collect_len_off(gk, c, i);
        let pre = collect(gk, i);
        lemma_collect_prefix(gk, i, 24);
        assert forall|j: int| 0 <= j < pre.len() implies #[trigger] af[j] == pre[j] by {
            assert(af.take(pre.len() as int)[j] == af[j]);
        }
        lemma_nzc_prefix(af, pre, pre.len() as int);
    }
    lemma_collect_from(gs, sf, 24);
    assert(sf.take(sf.len() as int) =~= sf);
}


/// The kind counts of the arrangements of an even point are its value counts.
pub(crate) proof fn lemma_even_occ(x: Point, c: u32, k: int)
    requires
        0 <= k < 4,
        forall|i: int| 0 <= i < 24 ==> -15 < #[trigger] x[i] < 15,
        forall|i: int| 0 <= i < 24 ==> #[trigger] absv(x[i] as int) % 2 == 0,
        forall|i: int|
            0 <= i < 24 ==> (bit(c, i as u32) == 1) == (#[trigger] absv(x[i] as int) % 4 == 2),
    ensures
        occ(on_kinds(x, c), k) == hist(x)[wval(k)],
        occ(off_kinds(x, c), k) == hist(x)[oval(k)],
{
    let fk = on_kinds_f(x, c);
    let gk = off_kinds_f(x, c);
    let ak = on_kinds(x, c);
    let bk = off_kinds(x, c);
    lemma_collect_len_on(fk, c, 24);
    lemma_collect_len_off(gk, c, 24);
    let fa = ind(ak, k);
    let fb = ind(bk, k);
    lemma_reindex_on(c, fa, 24);
    lemma_reindex_off(c, fb, 24);
    assert forall|i: int| 0 <= i < 24 implies #[trigger] ind(abs_seq(x), wval(k))(i) == (if bit(
        c,
        i as u32,
    ) == 1 {
        fa(on_slot(c, i))
    } else {
        0
    }) by {
        if bit(c, i as u32) == 1 {
            lemma_collect_len_on(fk, c, i);
            lemma_collect_at(fk, i, 24);
        }
    }
    lemma_psum_ext(
        ind(abs_seq(x), wval(k)),
        |i: int| if bit(c, i as u32) == 1 { fa(on_slot(c, i)) } else { 0 },
        24,
    );
    assert forall|i: int| 0 <= i < 24 implies #[trigger] ind(abs_seq(x), oval(k))(i) == (if bit(
        c,
        i as u32,
    ) == 0 {
        fb(off_slot(c, i))
    } else {
        0
    }) by {
        lemma_pc_upto_step(c, i);
        if bit(c, i as u32) == 0 {
            lemma_collect_len_off(gk, c, i);
            lemma_collect_at(gk, i, 24);
        }
    }
    lemma_psum_ext(
        ind(abs_seq(x), oval(k)),
        |i: int| if bit(c, i as u32) == 0 { fb(off_slot(c, i)) } else { 0 },
        24,
    );
}


/// `Σ s_j`.
pub open spec fn ssum(s: Seq<int>) -> int {
    psum(|j: int| s[j], s.len() as int)
}

/// The minus signs on the support, counted along the arrangement.
pub(crate) proof fn lemma_neg_on_signs(x: Point, c: u32)
    ensures
        neg_on(x, c) == ssum(on_signs(x, c)),
{
    let fs = on_signs_f(x, c);
    let sg = on_signs(x, c);
    lemma_collect_len_on(fs, c, 24);
    let f = |j: int| sg[j];
    lemma_reindex_on(c, f, 24);
    assert forall|i: int| 0 <= i < 24 implies #[trigger] neg_on_f(x, c)(i) == (if bit(
        c,
        i as u32,
    ) == 1 {
        f(on_slot(c, i))
    } else {
        0
    }) by {
        if bit(c, i as u32) == 1 {
            lemma_collect_len_on(fs, c, i);
            lemma_collect_at(fs, i, 24);
        }
    }
    lemma_psum_ext(
        neg_on_f(x, c),
        |i: int| if bit(c, i as u32) == 1 { f(on_slot(c, i)) } else { 0 },
        24,
    );
}

/// An odd point that follows the sign rule of `c` is rebuilt from its kinds.
pub(crate) proof fn lemma_odd_arr_parse(x: Point, c: u32)
    requires
        forall|i: int| 0 <= i < 24 ==> -15 < #[trigger] x[i] < 15,
        forall|i: int| 0 <= i < 24 ==> #[trigger] absv(x[i] as int) % 2 == 1,
        forall|i: int|
            0 <= i < 24 ==> #[trigger] x[i] == odd_coord(absv(x[i] as int), bit(c, i as u32) == 1),
    ensures
        all_kinds(x).len() == 24,
        forall|i: int| 0 <= i < 24 ==> 0 <= #[trigger] all_kinds(x)[i] < 7,
        forall|i: int|
            0 <= i < 24 ==> #[trigger] x[i] == odd_coord(dval(all_kinds(x)[i]), bit(c, i as u32) == 1),
        forall|k: int| 0 <= k < 7 ==> #[trigger] occ(all_kinds(x), k) == hist(x)[dval(k)],
{
    let f = all_kinds_f(x);
    lemma_collect_all(f, 24);
    assert forall|i: int| 0 <= i < 24 implies 0 <= #[trigger] all_kinds(x)[i] < 7 && x[i]
        == odd_coord(dval(all_kinds(x)[i]), bit(c, i as u32) == 1) by {
        assert(all_kinds(x)[i] == f(i)->0);
        assert(dval(dkind(absv(x[i] as int))) == absv(x[i] as int));
    }
    assert forall|k: int| 0 <= k < 7 implies #[trigger] occ(all_kinds(x), k) == hist(x)[dval(k)] by {
        assert forall|i: int| 0 <= i < 24 implies #[trigger] ind(all_kinds(x), k)(i) == ind(
            abs_seq(x),
            dval(k),
        )(i) by {
            assert(all_kinds(x)[i] == f(i)->0);
        }
        lemma_psum_ext(ind(all_kinds(x), k), ind(abs_seq(x), dval(k)), 24);
    }
}

/// The odd point built from kinds and a codeword has those kinds.
pub(crate) proof fn lemma_odd_arr_build(p: Point, c: u32, aa: Seq<int>)
    requires
        aa.len() == 24,
        forall|i: int| 0 <= i < 24 ==> 0 <= #[trigger] aa[i] < 7,
        forall|i: int| 0 <= i < 24 ==> #[trigger] p[i] == odd_coord(dval(aa[i]), bit(c, i as u32) == 1),
    ensures
        all_kinds(p) == aa,
        forall|i: int| 0 <= i < 24 ==> -15 < #[trigger] p[i] < 15,
        forall|i: int| 0 <= i < 24 ==> #[trigger] absv(p[i] as int) % 2 == 1,
        forall|i: int|
            0 <= i < 24 ==> #[trigger] p[i] == odd_coord(absv(p[i] as int), bit(c, i as u32) == 1),
{
    let f = all_kinds_f(p);
    assert forall|i: int| 0 <= i < 24 implies {
        &&& -15 < #[trigger] p[i] < 15
        &&& absv(p[i] as int) % 2 == 1
        &&& absv(p[i] as int) == dval(aa[i])
        &&& p[i] == odd_coord(absv(p[i] as int), bit(c, i as u32) == 1)
    } by {
        assert(0 <= aa[i] < 7);
    }
    lemma_collect_all(f, 24);
    assert(all_kinds(p) =~= aa);
}


// ---------------------------------------------------------------------------
// Bit patterns as numbers
// ---------------------------------------------------------------------------
/// `Σ s_j · 2^j`.
pub open spec fn bv(s: Seq<int>) -> int
    decreases s.len(),
{
    if s.len() == 0 {
        0
    } else {
        bv(s.drop_last()) + s.last() * pow2(s.len() - 1)
    }
}

/// The low `n` binary digits of `r`.
pub open spec fn bitseq(r: int, n: int) -> Seq<int> {
    Seq::new(n as nat, |j: int| (r / pow2(j)) % 2)
}

pub open spec fn bits01(s: Seq<int>) -> bool {
    forall|j: int| 0 <= j < s.len() ==> 0 <= #[trigger] s[j] < 2
}

pub(crate) proof fn lemma_pow2_facts(e: int)
    requires
        e >= 0,
    ensures
        pow2(e) >= 1,
        pow2(e + 1) == 2 * pow2(e),
{
    lemma_pow_mono(2, 0, e);
    assert(pow(2, 0) == 1);
}

/// The number of the low `n` digits of `r`.
pub(crate) proof fn lemma_bv_bitseq(r: int, n: int)
    requires
        0 <= r,
        0 <= n,
    ensures
        bv(bitseq(r, n)) == r % pow2(n),
    decreases n,
{
    if n == 0 {
        assert(pow(2, 0) == 1);
    } else {
        lemma_bv_bitseq(r, n - 1);
        lemma_pow2_facts(n - 1);
        assert(bitseq(r, n).drop_last() =~= bitseq(r, n - 1));
        let y = pow2(n - 1);
        vstd::arithmetic::div_mod::lemma_mod_breakdown(r, y, 2);
        assert(y * 2 == pow2(n));
        assert(bitseq(r, n).last() == (r / y) % 2);
        assert(bv(bitseq(r, n)) == r % y + ((r / y) % 2) * y);
        assert(((r / y) % 2) * y == y * ((r / y) % 2)) by (nonlinear_arith);
    }
}

/// A bit pattern is below `2^len`, and its number determines it.
pub(crate) proof fn lemma_bv_bound(s: Seq<int>)
    requires
        bits01(s),
    ensures
        0 <= bv(s) < pow2(s.len() as int),
    decreases s.len(),
{
    if s.len() > 0 {
        let t = s.drop_last();
        lemma_bv_bound(t);
        lemma_pow2_facts(t.len() as int);
        assert(0 <= s.last() < 2);
    } else {
        assert(pow(2, 0) == 1);
    }
}

pub(crate) proof fn lemma_bv_injective(s: Seq<int>, t: Seq<int>)
    requires
        bits01(s),
        bits01(t),
        s.len() == t.len(),
        bv(s) == bv(t),
    ensures
        s == t,
    decreases s.len(),
{
    if s.len() > 0 {
        let s1 = s.drop_last();
        let t1 = t.drop_last();
        lemma_bv_bound(s1);
        lemma_bv_bound(t1);
        let y = pow2(s.len() - 1);
        lemma_pow2_facts(s.len() - 1);
        let a = s.last();
        let b = t.last();
        assert(0 <= a < 2 && 0 <= b < 2);
        vstd::arithmetic::div_mod::lemma_fundamental_div_mod_converse(bv(s), y, a, bv(s1));
        vstd::arithmetic::div_mod::lemma_fundamental_div_mod_converse(bv(t), y, b, bv(t1));
        lemma_bv_injective(s1, t1);
        assert(s =~= t) by {
            assert forall|j: int| 0 <= j < s.len() implies s[j] == t[j] by {
                if j < s.len() - 1 {
                    assert(s[j] == s1[j] && t[j] == t1[j]);
                }
            }
        }
    }
}


/// `nzc` counts the slots that are not of the zero kind.
pub(crate) proof fn lemma_nzc_occ(a: Seq<int>, n: int)
    requires
        0 <= n <= a.len(),
    ensures
        nzc(a, n) + psum(ind(a, 3), n) == n,
    decreases n,
{
    if n > 0 {
        lemma_nzc_occ(a, n - 1);
    }
}

pub(crate) proof fn lemma_ssum_push(s: Seq<int>, b: int)
    ensures
        ssum(s.push(b)) == ssum(s) + b,
{
    let t = s.push(b);
    lemma_psum_ext(|j: int| t[j], |j: int| s[j], s.len() as int);
}

/// The origin has norm 0; any other point has a positive norm.
pub proof fn lemma_origin_norm(x: Point)
    ensures
        is_origin(x) ==> norm(x) == 0,
        !is_origin(x) ==> norm(x) > 0,
{
    lemma_norm_psum(x);
    let f = |i: int| x[i] * x[i];
    assert forall|j: int| 0 <= j < 24 implies #[trigger] f(j) >= 0 by {
        let v = x[j] as int;
        assert(v * v >= 0) by (nonlinear_arith);
    }
    if is_origin(x) {
        lemma_psum_zero_all(f, 24);
    } else {
        let i = choose|i: int| 0 <= i < 24 && x[i] != 0;
        lemma_psum_single(f, i, 24);
        let v = x[i] as int;
        assert(v * v > 0) by (nonlinear_arith)
            requires
                v != 0,
        ;
    }
}


/// `v² ≡ 4·b (mod 16)` for even `v`, `b = 1` iff `v ≡ 2 (mod 4)`; and
/// `v² ≡ 2·v − 1 + 4·b (mod 16)` for odd `v`, `b = 1` iff `v ≡ 3 (mod 4)`.
proof fn lemma_square_mod16(v: int, b: int) -> (q: int)
    requires
        b == 0 || b == 1,
        v % 2 == 0 ==> (b == 1 <==> v % 4 == 2),
        v % 2 == 1 ==> (b == 1 <==> v % 4 == 3),
    ensures
        v % 2 == 0 ==> v * v - 4 * b == 16 * q,
        v % 2 == 1 ==> v * v - 2 * v + 1 - 4 * b == 16 * q,
{
    let a = v / 4;
    let r = v % 4;
    assert(v == 4 * a + r && 0 <= r < 4);
    assert(v % 2 == r % 2) by {
        assert((4 * a + r) % 2 == r % 2) by (nonlinear_arith)
            requires
                0 <= r < 4,
        ;
    }
    if r == 0 || r == 2 {
        assert(v * v - 4 * b == 16 * (a * a + a * b)) by (nonlinear_arith)
            requires
                v == 4 * a + 2 * b,
                b == 0 || b == 1,
        ;
        a * a + a * b
    } else {
        assert(v * v - 2 * v + 1 - 4 * b == 16 * (a * a + a * b)) by (nonlinear_arith)
            requires
                v == 4 * a + 1 + 2 * b,
                b == 0 || b == 1,
        ;
        a * a + a * b
    }
}

/// Coordinate by coordinate, `x_i² ≡ 4·b_i` (even points) or
/// `x_i² ≡ 2·x_i − 1 + 4·b_i` (odd points) modulo 16, `b_i` the bit of the
/// Golay word; summed over the first `k` coordinates.
proof fn lemma_norm_upto_mod16(x: Point, c: u32, k: nat) -> (q: int)
    requires
        k <= 24,
        uniform_parity(x),
        forall|i: u32| i < 24 ==> #[trigger] bit(c, i) == (if on_word(x, i as int) {
            1u32
        } else {
            0u32
        }),
    ensures
        par(x) == 0 ==> norm_upto(x, k) - 4 * pc_upto(c, k as u32) == 16 * q,
        par(x) == 1 ==> norm_upto(x, k) - 2 * coord_sum_upto(x, k) + k - 4 * pc_upto(c, k as u32)
            == 16 * q,
    decreases k,
{
    if k == 0 {
        assert(pc_upto(c, 0) == 0);
        0
    } else {
        let q0 = lemma_norm_upto_mod16(x, c, (k - 1) as nat);
        let i = (k - 1) as int;
        lemma_pc_upto_step(c, i);
        assert((i + 1) as u32 == k as u32);
        let v = x[i] as int;
        let b = bit(c, i as u32) as int;
        assert(b == (if on_word(x, i) { 1int } else { 0int }));
        assert(v % 2 == par(x));
        let q1 = lemma_square_mod16(v, b);
        q0 + q1
    }
}

/// Every lattice point has a norm divisible by 16, so it lies on a shell
/// `‖x‖² = 16·m`.
pub proof fn lemma_member_norm(x: Point)
    requires
        is_member(x),
    ensures
        norm(x) % 16 == 0,
{
    let c = golay_word(x);
    lemma_word_bits(x);
    let m = choose|m: u32| m < 4096 && #[trigger] encode_spec(m) == c;
    lemma_codeword_weights(m);
    lemma_pc_24(c);
    let q = lemma_norm_upto_mod16(x, c, 24);
    assert(is_code_weight(pc(c) as int));
}

/// The ball is the origin and the lattice points of norm `32 ..= 208`.
pub proof fn lemma_in_ball_norms(x: Point)
    ensures
        in_ball(x) <==> (is_origin(x) || (is_member(x) && 32 <= norm(x) <= 208)),
{
    if is_member(x) {
        lemma_member_norm(x);
    }
}

/// The minimal norm: every lattice point other than the origin has
/// `‖x‖² ≥ 32`, so no point lies on the shell `m = 1`.
pub proof fn lemma_min_norm(x: Point)
    requires
        is_member(x),
        !is_origin(x),
    ensures
        norm(x) >= 32,
{
    let c = golay_word(x);
    lemma_word_bits(x);
    let m = choose|m: u32| m < 4096 && #[trigger] encode_spec(m) == c;
    lemma_codeword_weights(m);
    lemma_pc_24(c);
    lemma_norm_psum(x);
    lemma_psum_bits(c, 24);
    let w = pc(c);
    let sq = |i: int| x[i] * x[i];
    let bits = |i: int| bit(c, i as u32) as int;
    assert forall|i: int| 0 <= i < 24 implies #[trigger] sq(i) >= 0 by {
        let v = x[i] as int;
        assert(v * v >= 0) by (nonlinear_arith);
    }
    assert forall|i: int| 0 <= i < 24 implies #[trigger] bits(i) == (if on_word(x, i) {
        1int
    } else {
        0int
    }) by {
        assert(bit(c, i as u32) == (if on_word(x, (i as u32) as int) { 1u32 } else { 0u32 }));
    }
    let i0 = choose|i: int| 0 <= i < 24 && x[i] != 0;
    if par(x) == 0 {
        if w >= 8 {
            let g = |i: int| 4 * bits(i);
            assert forall|i: int| 0 <= i < 24 implies #[trigger] g(i) <= sq(i) by {
                let v = x[i] as int;
                if on_word(x, i) {
                    assert(v * v >= 4) by (nonlinear_arith)
                        requires
                            v % 4 == 2,
                    ;
                } else {
                    assert(v * v >= 0) by (nonlinear_arith);
                }
            }
            lemma_psum_le(g, sq, 24);
            lemma_psum_linear(g, |i: int| 0int, bits, 4, 24);
            lemma_psum_zero_all(|i: int| 0int, 24);
        } else {
            assert(w == 0);
            assert forall|i: int| 0 <= i < 24 implies #[trigger] bits(i) == 0 by {
                lemma_psum_nonneg(bits, 24);
                lemma_psum_single(bits, i, 24);
            }
            assert forall|i: int| 0 <= i < 24 implies (#[trigger] x[i] as int) % 4 == 0 by {
                assert(bits(i) == 0);
                assert(!on_word(x, i));
                assert((x[i] as int) % 2 == 0);
            }
            let v0 = x[i0] as int;
            assert(v0 * v0 >= 16) by (nonlinear_arith)
                requires
                    v0 % 4 == 0,
                    v0 != 0,
            ;
            if exists|j: int| 0 <= j < 24 && j != i0 && x[j] != 0 {
                let j = choose|j: int| 0 <= j < 24 && j != i0 && x[j] != 0;
                let vj = x[j] as int;
                assert(vj * vj >= 16) by (nonlinear_arith)
                    requires
                        vj % 4 == 0,
                        vj != 0,
                ;
                if i0 < j {
                    lemma_psum_pair(sq, i0, j, 24);
                } else {
                    lemma_psum_pair(sq, j, i0, 24);
                }
            } else {
                let xs = |i: int| x[i] as int;
                let e = |i: int| if i == i0 { v0 } else { 0int };
                lemma_psum_ext(xs, e, 24);
                lemma_psum_single_value(v0, i0, 24);
                assert(v0 % 8 == 0);
                assert(v0 * v0 >= 64) by (nonlinear_arith)
                    requires
                        v0 % 8 == 0,
                        v0 != 0,
                ;
                lemma_psum_single(sq, i0, 24);
            }
        }
    } else {
        assert forall|i: int| 0 <= i < 24 implies (#[trigger] x[i] as int) % 2 == 1 by {}
        let h = |i: int| sq(i) - 1;
        assert forall|i: int| 0 <= i < 24 implies #[trigger] h(i) >= 0 by {
            let v = x[i] as int;
            assert(v * v >= 1) by (nonlinear_arith)
                requires
                    v % 2 == 1,
            ;
        }
        lemma_psum_linear(sq, |i: int| 1int, h, 1, 24);
        lemma_psum_const(24);
        if exists|j: int| 0 <= j < 24 && x[j] != 1 && x[j] != -1 {
            let j = choose|j: int| 0 <= j < 24 && x[j] != 1 && x[j] != -1;
            let vj = x[j] as int;
            assert(vj * vj >= 9) by (nonlinear_arith)
                requires
                    vj % 2 == 1,
                    vj != 1,
                    vj != -1,
            ;
            lemma_psum_single(h, j, 24);
        } else {
            let xs = |i: int| x[i] as int;
            assert forall|i: int| 0 <= i < 24 implies #[trigger] xs(i) == 1 + (-2) * bits(i) by {
                assert(x[i] == 1 || x[i] == -1);
            }
            lemma_psum_linear(xs, |i: int| 1int, bits, -2, 24);
            assert(coord_sum(x) == 24 - 2 * w);
            assert(false);
        }
    }
}

/// A sum that is zero except at one position is the value there.
pub(crate) proof fn lemma_psum_single_value(v: int, i0: int, n: int)
    requires
        0 <= i0 < n,
    ensures
        psum(|i: int| if i == i0 { v } else { 0int }, n) == v,
    decreases n,
{
    let e = |i: int| if i == i0 { v } else { 0int };
    if n - 1 > i0 {
        lemma_psum_single_value(v, i0, n - 1);
    } else {
        lemma_psum_zero_all(e, n - 1);
    }
}

} // verus!
