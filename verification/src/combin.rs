//! Multiset permutations: multinomial coefficients and the lexicographic
//! rank / unrank of an arrangement of kinds.
use vstd::prelude::*;

verus! {

/// Binomial coefficient, by Pascal's rule.
pub open spec fn binom(n: int, k: int) -> int
    decreases n,
{
    if n < 0 || k < 0 || k > n {
        0
    } else if k == 0 || k == n {
        1
    } else {
        binom(n - 1, k - 1) + binom(n - 1, k)
    }
}

/// Sum of the counts.
pub open spec fn total(c: Seq<int>) -> int
    decreases c.len(),
{
    if c.len() == 0 {
        0
    } else {
        c[0] + total(c.drop_first())
    }
}

/// Multinomial coefficient `(Σ c)! / Π c_i!`, as a product of binomials.
pub open spec fn mult(c: Seq<int>) -> int
    decreases c.len(),
{
    if c.len() == 0 {
        1
    } else {
        binom(total(c), c[0]) * mult(c.drop_first())
    }
}

/// The counts are natural numbers.
pub open spec fn nonneg(c: Seq<int>) -> bool {
    forall|j: int| 0 <= j < c.len() ==> 0 <= #[trigger] c[j]
}

/// One element of kind `j` removed.
pub open spec fn dec(c: Seq<int>, j: int) -> Seq<int> {
    c.update(j, c[j] - 1)
}

/// `Σ_{i < k, c_i > 0} mult(c - e_i)`: the number of arrangements whose
/// first kind is below `k`.
pub open spec fn below(c: Seq<int>, k: int) -> int
    decreases k,
{
    if k <= 0 {
        0
    } else {
        below(c, k - 1) + if c[k - 1] > 0 {
            mult(dec(c, k - 1))
        } else {
            0
        }
    }
}

/// `s` is an arrangement with exactly the counts `c`.
pub open spec fn has_counts(s: Seq<int>, c: Seq<int>) -> bool
    decreases s.len(),
{
    if s.len() == 0 {
        forall|j: int| 0 <= j < c.len() ==> #[trigger] c[j] == 0
    } else {
        &&& 0 <= s[0] < c.len()
        &&& c[s[0]] > 0
        &&& has_counts(s.drop_first(), dec(c, s[0]))
    }
}

/// Lexicographic rank of the arrangement `s` among those with counts `c`.
pub open spec fn rank(s: Seq<int>, c: Seq<int>) -> int
    decreases s.len(),
{
    if s.len() == 0 {
        0
    } else {
        below(c, s[0]) + rank(s.drop_first(), dec(c, s[0]))
    }
}

/// The first kind `j ≥ k` with `r < below(c, j + 1)`, for `r ≥ below(c, k)`.
pub open spec fn pick(r: int, c: Seq<int>, k: int) -> int
    decreases c.len() - k,
{
    if k >= c.len() {
        k
    } else if r < below(c, k + 1) {
        k
    } else {
        pick(r, c, k + 1)
    }
}

/// The arrangement of length `n` with counts `c` and rank `r`.
pub open spec fn unrank(r: int, c: Seq<int>, n: nat) -> Seq<int>
    decreases n,
{
    if n == 0 {
        Seq::empty()
    } else {
        let j = pick(r, c, 0);
        seq![j].add(unrank(r - below(c, j), dec(c, j), (n - 1) as nat))
    }
}

pub open spec fn pow(b: int, e: int) -> int
    decreases e,
{
    if e <= 0 {
        1
    } else {
        b * pow(b, e - 1)
    }
}

pub open spec fn u8_counts(v: Seq<u8>) -> Seq<int> {
    v.map_values(|x: u8| x as int)
}

proof fn lemma_binom_nonneg(n: int, k: int)
    ensures
        binom(n, k) >= 0,
    decreases n,
{
    if n >= 0 && k >= 0 && k <= n && k != 0 && k != n {
        lemma_binom_nonneg(n - 1, k - 1);
        lemma_binom_nonneg(n - 1, k);
    }
}

/// `k · C(n, k) = n · C(n - 1, k - 1)`.
proof fn lemma_absorb(n: int, k: int)
    requires
        1 <= k <= n,
    ensures
        k * binom(n, k) == n * binom(n - 1, k - 1),
    decreases n,
{
    if k == n {
        assert(binom(n - 1, k - 1) == 1);
    } else if k == 1 {
        lemma_binom_one(n);
        assert(binom(n - 1, 0) == 1);
    } else {
        lemma_absorb(n - 1, k - 1);
        lemma_absorb(n - 1, k);
        assert(binom(n, k) == binom(n - 1, k - 1) + binom(n - 1, k));
        assert(binom(n - 1, k - 1) == binom(n - 2, k - 2) + binom(n - 2, k - 1));
        let a = binom(n - 1, k - 1);
        let b = binom(n - 1, k);
        let x = binom(n - 2, k - 2);
        let y = binom(n - 2, k - 1);
        assert(k * (a + b) == n * a) by (nonlinear_arith)
            requires
                (k - 1) * a == (n - 1) * x,
                k * b == (n - 1) * y,
                a == x + y,
        ;
    }
}

proof fn lemma_binom_one(n: int)
    requires
        n >= 1,
    ensures
        binom(n, 1) == n,
    decreases n,
{
    if n > 1 {
        lemma_binom_one(n - 1);
        assert(binom(n - 1, 0) == 1);
        assert(binom(n, 1) == binom(n - 1, 0) + binom(n - 1, 1));
    }
}

/// `(n - k) · C(n, k) = n · C(n - 1, k)`.
proof fn lemma_absorb_top(n: int, k: int)
    requires
        0 <= k < n,
    ensures
        (n - k) * binom(n, k) == n * binom(n - 1, k),
{
    if k == 0 {
        assert(binom(n - 1, 0) == 1);
    } else {
        lemma_absorb(n, k);
        assert(binom(n, k) == binom(n - 1, k - 1) + binom(n - 1, k));
        let a = binom(n, k);
        let b = binom(n - 1, k - 1);
        let c = binom(n - 1, k);
        assert((n - k) * a == n * c) by (nonlinear_arith)
            requires
                k * a == n * b,
                a == b + c,
        ;
    }
}

pub(crate) proof fn lemma_total_nonneg(c: Seq<int>)
    requires
        nonneg(c),
    ensures
        total(c) >= 0,
        forall|j: int| 0 <= j < c.len() ==> #[trigger] c[j] <= total(c),
    decreases c.len(),
{
    if c.len() > 0 {
        lemma_total_nonneg(c.drop_first());
        assert forall|j: int| 0 <= j < c.len() implies #[trigger] c[j] <= total(c) by {
            if j > 0 {
                assert(c[j] == c.drop_first()[j - 1]);
            }
        }
    }
}

pub(crate) proof fn lemma_total_dec(c: Seq<int>, j: int)
    requires
        0 <= j < c.len(),
    ensures
        total(dec(c, j)) == total(c) - 1,
    decreases c.len(),
{
    if j > 0 {
        lemma_total_dec(c.drop_first(), j - 1);
        assert(dec(c, j).drop_first() =~= dec(c.drop_first(), j - 1));
    } else {
        assert(dec(c, j).drop_first() =~= c.drop_first());
    }
}

pub(crate) proof fn lemma_mult_nonneg(c: Seq<int>)
    ensures
        mult(c) >= 0,
    decreases c.len(),
{
    if c.len() > 0 {
        lemma_mult_nonneg(c.drop_first());
        lemma_binom_nonneg(total(c), c[0]);
        let a = binom(total(c), c[0]);
        let b = mult(c.drop_first());
        assert(a * b >= 0) by (nonlinear_arith)
            requires
                a >= 0,
                b >= 0,
        ;
    }
}

proof fn lemma_binom_pos(n: int, k: int)
    requires
        0 <= k <= n,
    ensures
        binom(n, k) >= 1,
    decreases n,
{
    if k != 0 && k != n {
        lemma_binom_pos(n - 1, k - 1);
        lemma_binom_nonneg(n - 1, k);
    }
}

/// A multiset has at least one arrangement.
pub(crate) proof fn lemma_mult_pos(c: Seq<int>)
    requires
        nonneg(c),
    ensures
        mult(c) >= 1,
    decreases c.len(),
{
    if c.len() > 0 {
        lemma_mult_pos(c.drop_first());
        lemma_total_nonneg(c);
        lemma_binom_pos(total(c), c[0]);
        let a = binom(total(c), c[0]);
        let b = mult(c.drop_first());
        assert(a * b >= 1) by (nonlinear_arith)
            requires
                a >= 1,
                b >= 1,
        ;
    }
}

/// Removing an element of kind `j`: `n · mult(c - e_j) = c_j · mult(c)`.
pub(crate) proof fn lemma_mult_dec(c: Seq<int>, j: int)
    requires
        nonneg(c),
        0 <= j < c.len(),
        c[j] > 0,
    ensures
        total(c) * mult(dec(c, j)) == c[j] * mult(c),
    decreases c.len(),
{
    let n = total(c);
    let r = c.drop_first();
    lemma_total_nonneg(c);
    lemma_total_nonneg(r);
    if j == 0 {
        assert(dec(c, 0).drop_first() =~= r);
        lemma_total_dec(c, 0);
        assert(mult(dec(c, 0)) == binom(n - 1, c[0] - 1) * mult(r));
        lemma_absorb(n, c[0]);
        let a = binom(n, c[0]);
        let b = binom(n - 1, c[0] - 1);
        let m = mult(r);
        assert(n * (b * m) == c[0] * (a * m)) by (nonlinear_arith)
            requires
                c[0] * a == n * b,
        ;
    } else {
        let rj = j - 1;
        assert(dec(c, j).drop_first() =~= dec(r, rj));
        assert(r[rj] == c[j]);
        lemma_mult_dec(r, rj);
        lemma_total_dec(c, j);
        assert(dec(c, j)[0] == c[0]);
        assert(mult(dec(c, j)) == binom(n - 1, c[0]) * mult(dec(r, rj)));
        // total(r) = n - c0 > 0 since c_j > 0
        assert(total(c) == c[0] + total(r));
        assert(r[rj] <= total(r));
        lemma_absorb_top(n, c[0]);
        let nr = total(r);
        let a = binom(n, c[0]);
        let b = binom(n - 1, c[0]);
        let m1 = mult(dec(r, rj));
        let m = mult(r);
        assert(n * (b * m1) == c[j] * (a * m)) by (nonlinear_arith)
            requires
                nr * m1 == c[j] * m,
                (n - c[0]) * a == n * b,
                nr == n - c[0],
        ;
    }
}

/// `n · below(c, k) = (Σ_{j < k} c_j) · mult(c)`.
proof fn lemma_below_scaled(c: Seq<int>, k: int)
    requires
        nonneg(c),
        0 <= k <= c.len(),
    ensures
        total(c) * below(c, k) == total(c.take(k)) * mult(c),
    decreases k,
{
    if k == 0 {
        assert(c.take(0) =~= Seq::<int>::empty());
    } else {
        lemma_below_scaled(c, k - 1);
        lemma_total_take(c, k);
        if c[k - 1] > 0 {
            lemma_mult_dec(c, k - 1);
        }
        let n = total(c);
        let b = below(c, k - 1);
        let t = total(c.take(k - 1));
        let m = mult(c);
        let md = mult(dec(c, k - 1));
        let cj = c[k - 1];
        if cj > 0 {
            assert(n * (b + md) == (t + cj) * m) by (nonlinear_arith)
                requires
                    n * b == t * m,
                    n * md == cj * m,
            ;
        } else {
            assert(cj == 0);
        }
    }
}

proof fn lemma_total_take(c: Seq<int>, k: int)
    requires
        1 <= k <= c.len(),
    ensures
        total(c.take(k)) == total(c.take(k - 1)) + c[k - 1],
    decreases k,
{
    if k == 1 {
        assert(c.take(1).drop_first() =~= Seq::<int>::empty());
        assert(c.take(0) =~= Seq::<int>::empty());
    } else {
        lemma_total_take(c.drop_first(), k - 1);
        assert(c.take(k).drop_first() =~= c.drop_first().take(k - 1));
        assert(c.take(k - 1).drop_first() =~= c.drop_first().take(k - 2));
    }
}

/// The arrangements split by their first kind: `below(c, len) = mult(c)`.
pub(crate) proof fn lemma_below_full(c: Seq<int>)
    requires
        nonneg(c),
        total(c) > 0,
    ensures
        below(c, c.len() as int) == mult(c),
{
    lemma_below_scaled(c, c.len() as int);
    assert(c.take(c.len() as int) =~= c);
    let n = total(c);
    let b = below(c, c.len() as int);
    let m = mult(c);
    assert(b == m) by (nonlinear_arith)
        requires
            n * b == n * m,
            n > 0,
    ;
}

pub(crate) proof fn lemma_below_mono(c: Seq<int>, a: int, b: int)
    requires
        0 <= a <= b <= c.len(),
    ensures
        below(c, a) <= below(c, b),
    decreases b - a,
{
    if a < b {
        lemma_below_mono(c, a, b - 1);
        if c[b - 1] > 0 {
            lemma_mult_nonneg(dec(c, b - 1));
        }
    }
}

proof fn lemma_dec_nonneg(c: Seq<int>, j: int)
    requires
        nonneg(c),
        0 <= j < c.len(),
        c[j] > 0,
    ensures
        nonneg(dec(c, j)),
{
}

/// A rank is below the number of arrangements.
pub proof fn lemma_rank_bound(s: Seq<int>, c: Seq<int>)
    requires
        nonneg(c),
        has_counts(s, c),
    ensures
        0 <= rank(s, c) < mult(c),
        total(c) == s.len(),
    decreases s.len(),
{
    if s.len() == 0 {
        lemma_mult_empty_counts(c);
        lemma_total_zero(c);
    } else {
        let j = s[0];
        lemma_dec_nonneg(c, j);
        lemma_rank_bound(s.drop_first(), dec(c, j));
        lemma_total_dec(c, j);
        lemma_below_mono(c, j, j + 1);
        lemma_below_mono(c, j + 1, c.len() as int);
        lemma_below_mono(c, 0, j);
        lemma_below_full(c);
    }
}

proof fn lemma_total_zero(c: Seq<int>)
    requires
        forall|j: int| 0 <= j < c.len() ==> #[trigger] c[j] == 0,
    ensures
        total(c) == 0,
    decreases c.len(),
{
    if c.len() > 0 {
        lemma_total_zero(c.drop_first());
    }
}

proof fn lemma_mult_empty_counts(c: Seq<int>)
    requires
        forall|j: int| 0 <= j < c.len() ==> #[trigger] c[j] == 0,
    ensures
        mult(c) == 1,
    decreases c.len(),
{
    if c.len() > 0 {
        lemma_mult_empty_counts(c.drop_first());
        lemma_total_zero(c);
    }
}

proof fn lemma_pick(r: int, c: Seq<int>, k: int)
    requires
        nonneg(c),
        0 <= k <= c.len(),
        below(c, k) <= r < below(c, c.len() as int),
    ensures
        k <= pick(r, c, k) < c.len(),
        below(c, pick(r, c, k)) <= r < below(c, pick(r, c, k) + 1),
        c[pick(r, c, k)] > 0,
    decreases c.len() - k,
{
    if k < c.len() {
        if r < below(c, k + 1) {
            if c[k] <= 0 {
                assert(below(c, k + 1) == below(c, k));
            }
        } else {
            lemma_pick(r, c, k + 1);
        }
    }
}

/// The kinds of an arrangement are in range.
pub(crate) proof fn lemma_has_counts_range(s: Seq<int>, c: Seq<int>)
    requires
        has_counts(s, c),
    ensures
        forall|j: int| 0 <= j < s.len() ==> 0 <= #[trigger] s[j] < c.len(),
    decreases s.len(),
{
    if s.len() > 0 {
        lemma_has_counts_range(s.drop_first(), dec(c, s[0]));
        assert forall|j: int| 0 <= j < s.len() implies 0 <= #[trigger] s[j] < c.len() by {
            if j > 0 {
                assert(s[j] == s.drop_first()[j - 1]);
            }
        }
    }
}

/// Unranking inverts ranking on valid ranks.
pub proof fn lemma_unrank(r: int, c: Seq<int>)
    requires
        nonneg(c),
        0 <= r < mult(c),
    ensures
        has_counts(unrank(r, c, total(c) as nat), c),
        rank(unrank(r, c, total(c) as nat), c) == r,
        unrank(r, c, total(c) as nat).len() == total(c),
    decreases total(c),
{
    lemma_total_nonneg(c);
    let n = total(c);
    if n == 0 {
        assert forall|j: int| 0 <= j < c.len() implies #[trigger] c[j] == 0 by {
            lemma_total_nonneg(c);
        }
        lemma_mult_empty_counts(c);
    } else {
        lemma_below_full(c);
        lemma_pick(r, c, 0);
        let j = pick(r, c, 0);
        let c2 = dec(c, j);
        lemma_dec_nonneg(c, j);
        lemma_total_dec(c, j);
        let r2 = r - below(c, j);
        assert(below(c, j + 1) == below(c, j) + mult(c2));
        lemma_unrank(r2, c2);
        let s = unrank(r, c, n as nat);
        assert(s[0] == j);
        assert(s.drop_first() =~= unrank(r2, c2, (n - 1) as nat));
        assert(rank(s, c) == below(c, j) + rank(s.drop_first(), c2));
    }
}

/// Ranking is injective: the rank of an arrangement unranks back to it.
pub proof fn lemma_rank_unrank(s: Seq<int>, c: Seq<int>)
    requires
        nonneg(c),
        has_counts(s, c),
    ensures
        unrank(rank(s, c), c, s.len() as nat) == s,
    decreases s.len(),
{
    lemma_rank_bound(s, c);
    if s.len() > 0 {
        let j = s[0];
        let c2 = dec(c, j);
        lemma_dec_nonneg(c, j);
        lemma_rank_bound(s.drop_first(), c2);
        lemma_rank_unrank(s.drop_first(), c2);
        let r = rank(s, c);
        lemma_below_full(c);
        lemma_below_mono(c, j + 1, c.len() as int);
        assert(below(c, j + 1) == below(c, j) + mult(c2));
        lemma_pick_unique(r, c, 0, j);
        let u = unrank(r, c, s.len() as nat);
        assert(u =~= seq![j].add(unrank(rank(s.drop_first(), c2), c2, (s.len() - 1) as nat)));
        assert(u =~= s);
    }
}

proof fn lemma_pick_unique(r: int, c: Seq<int>, k: int, j: int)
    requires
        nonneg(c),
        0 <= k <= j < c.len(),
        below(c, j) <= r < below(c, j + 1),
    ensures
        pick(r, c, k) == j,
    decreases j - k,
{
    if k < j {
        lemma_below_mono(c, k + 1, j);
        lemma_pick_unique(r, c, k + 1, j);
    }
}

/// Bound: `mult(c) ≤ len(c)^total(c)`.
pub(crate) proof fn lemma_mult_pow_bound(c: Seq<int>)
    requires
        nonneg(c),
        total(c) >= 0,
        c.len() >= 1,
    ensures
        mult(c) <= pow(c.len() as int, total(c)),
    decreases total(c), 1int, 0int,
{
    lemma_total_nonneg(c);
    let n = total(c);
    let k = c.len() as int;
    if n == 0 {
        lemma_mult_empty_counts(c);
        assert forall|j: int| 0 <= j < c.len() implies #[trigger] c[j] == 0 by {}
    } else {
        lemma_below_full(c);
        lemma_below_pow(c, k, k);
        assert(pow(k, n) == k * pow(k, n - 1));
    }
}

/// Each term of `below` is at most `len^(n - 1)`.
proof fn lemma_below_pow(c: Seq<int>, k: int, len: int)
    requires
        nonneg(c),
        len == c.len(),
        len >= 1,
        0 <= k <= len,
        total(c) >= 1,
    ensures
        below(c, k) <= k * pow(len, total(c) - 1),
    decreases total(c), 0int, k,
{
    if k > 0 {
        lemma_below_pow(c, k - 1, len);
        if c[k - 1] > 0 {
            lemma_dec_nonneg(c, k - 1);
            lemma_total_dec(c, k - 1);
            lemma_mult_pow_bound(dec(c, k - 1));
        }
        lemma_pow_nonneg(len, total(c) - 1);
        let p = pow(len, total(c) - 1);
        assert((k - 1) * p + p == k * p) by (nonlinear_arith);
    }
}

pub(crate) proof fn lemma_pow_nonneg(b: int, e: int)
    requires
        b >= 0,
    ensures
        pow(b, e) >= 0,
    decreases e,
{
    if e > 0 {
        lemma_pow_nonneg(b, e - 1);
        let p = pow(b, e - 1);
        assert(b * p >= 0) by (nonlinear_arith)
            requires
                b >= 0,
                p >= 0,
        ;
    }
}

pub(crate) proof fn lemma_pow_mono(b: int, e1: int, e2: int)
    requires
        b >= 1,
        0 <= e1 <= e2,
    ensures
        pow(b, e1) <= pow(b, e2),
    decreases e2 - e1,
{
    if e1 < e2 {
        lemma_pow_mono(b, e1, e2 - 1);
        lemma_pow_nonneg(b, e2 - 1);
        let p = pow(b, e2 - 1);
        assert(p <= b * p) by (nonlinear_arith)
            requires
                b >= 1,
                p >= 0,
        ;
    }
}

pub(crate) proof fn lemma_pow_base_mono(a: int, b: int, e: int)
    requires
        1 <= a <= b,
        e >= 0,
    ensures
        pow(a, e) <= pow(b, e),
    decreases e,
{
    if e > 0 {
        lemma_pow_base_mono(a, b, e - 1);
        lemma_pow_nonneg(a, e - 1);
        let p = pow(a, e - 1);
        let q = pow(b, e - 1);
        assert(a * p <= b * q) by (nonlinear_arith)
            requires
                1 <= a <= b,
                0 <= p <= q,
        ;
    }
}

/// `C(n, k)` by the multiplicative formula.
fn binomial(n: u8, k: u8) -> (r: u128)
    requires
        k <= n <= 24,
    ensures
        r == binom(n as int, k as int),
        r <= 0x1_0000_0000,
{
    let mut b: u128 = 1;
    let mut i: u8 = 0;
    // b = C(n - k + i, i)
    while i < k
        invariant
            i <= k <= n <= 24,
            b == binom((n - k + i) as int, i as int),
            b <= 0x1_0000_0000,
        decreases k - i,
    {
        let m = n - k + i + 1;
        proof {
            lemma_absorb(m as int, (i + 1) as int);
            lemma_binom_le_pow2(m as int, (i + 1) as int);
            lemma_binom_nonneg(m as int, (i + 1) as int);
            assert(binom((m - 1) as int, i as int) == b);
        }
        assert(b * m <= 0x1_0000_0000 * 25) by (nonlinear_arith)
            requires
                b <= 0x1_0000_0000,
                m <= 25,
        ;
        let num = b * (m as u128);
        proof {
            let q = binom(m as int, (i + 1) as int);
            let bb = b as int;
            let mm = m as int;
            let d = (i + 1) as int;
            assert(bb * mm == d * q) by (nonlinear_arith)
                requires
                    d * q == mm * bb,
            ;
        }
        assert(num == (i + 1) * binom(m as int, (i + 1) as int));
        b = num / ((i + 1) as u128);
        proof {
            let q = binom(m as int, (i + 1) as int);
            let d = (i + 1) as int;
            let nm = num as int;
            assert(nm / d == q) by (nonlinear_arith)
                requires
                    nm == d * q,
                    d > 0,
            ;
        }
        i = i + 1;
    }
    b
}

proof fn lemma_binom_le_pow2(n: int, k: int)
    requires
        0 <= n <= 24,
    ensures
        binom(n, k) <= pow(2, n),
        pow(2, n) <= 0x1_0000_0000,
    decreases n,
{
    reveal_with_fuel(pow, 25);
    lemma_pow_mono(2, n, 24);
    assert(pow(2, 24) == 0x100_0000);
    if n >= 1 && k >= 1 && k < n {
        lemma_binom_le_pow2(n - 1, k - 1);
        lemma_binom_le_pow2(n - 1, k);
    } else {
        lemma_pow_mono(2, 0, n);
    }
}

/// Counts of a multiset of at most 24 elements (any number of kinds).
pub open spec fn counts_ok(c: Seq<u8>) -> bool {
    total(u8_counts(c)) <= 24
}

/// `n!`.
pub open spec fn fact(n: int) -> int
    decreases n,
{
    if n <= 0 {
        1
    } else {
        n * fact(n - 1)
    }
}

/// A bound on every multinomial coefficient of at most 24 elements
/// (`24! < 2^80`).
pub const MULT_CAP: u128 = 0x1_0000_0000_0000_0000_0000;

proof fn lemma_fact_pos(n: int)
    ensures
        fact(n) >= 1,
    decreases n,
{
    if n > 0 {
        lemma_fact_pos(n - 1);
        assert(n * fact(n - 1) >= 1) by (nonlinear_arith)
            requires
                n >= 1,
                fact(n - 1) >= 1,
        ;
    }
}

/// `24! = 620 448 401 733 239 439 360 000`.
proof fn lemma_fact_24()
    ensures
        fact(24) == 620_448_401_733_239_439_360_000,
{
    assert(fact(0) == 1);
    assert(fact(1) == 1);
    assert(fact(2) == 2);
    assert(fact(3) == 6);
    assert(fact(4) == 24);
    assert(fact(5) == 120);
    assert(fact(6) == 720);
    assert(fact(7) == 5040);
    assert(fact(8) == 40320);
    assert(fact(9) == 362880);
    assert(fact(10) == 3628800);
    assert(fact(11) == 39916800);
    assert(fact(12) == 479001600);
    assert(fact(13) == 6227020800);
    assert(fact(14) == 87178291200);
    assert(fact(15) == 1307674368000);
    assert(fact(16) == 20922789888000);
    assert(fact(17) == 355687428096000);
    assert(fact(18) == 6402373705728000);
    assert(fact(19) == 121645100408832000);
    assert(fact(20) == 2432902008176640000);
    assert(fact(21) == 51090942171709440000);
    assert(fact(22) == 1124000727777607680000);
    assert(fact(23) == 25852016738884976640000);
    assert(fact(24) == 620448401733239439360000);
}

proof fn lemma_fact_le_cap(n: int)
    requires
        n <= 24,
    ensures
        fact(n) <= fact(24),
        fact(24) <= MULT_CAP,
    decreases 24 - n,
{
    lemma_fact_24();
    if n < 0 {
        assert(fact(n) == 1);
    } else if n < 24 {
        lemma_fact_le_cap(n + 1);
        lemma_fact_pos(n);
        assert(fact(n + 1) == (n + 1) * fact(n));
        assert(fact(n) <= (n + 1) * fact(n)) by (nonlinear_arith)
            requires
                fact(n) >= 1,
                n >= 0,
        ;
    }
}

/// Each term of `below` is at most `(n - 1)!`, weighted by its count.
proof fn lemma_below_fact(c: Seq<int>, k: int)
    requires
        nonneg(c),
        0 <= k <= c.len(),
        total(c) >= 1,
    ensures
        below(c, k) <= total(c.take(k)) * fact(total(c) - 1),
    decreases total(c), 0int, k,
{
    if k == 0 {
        assert(c.take(0) =~= Seq::<int>::empty());
    } else {
        lemma_below_fact(c, k - 1);
        lemma_total_take(c, k);
        lemma_fact_pos(total(c) - 1);
        let f = fact(total(c) - 1);
        let t = total(c.take(k - 1));
        let cj = c[k - 1];
        if cj > 0 {
            lemma_dec_nonneg(c, k - 1);
            lemma_total_dec(c, k - 1);
            lemma_mult_fact(dec(c, k - 1));
            let md = mult(dec(c, k - 1));
            assert(below(c, k - 1) + md <= (t + cj) * f) by (nonlinear_arith)
                requires
                    below(c, k - 1) <= t * f,
                    md <= f,
                    cj >= 1,
                    f >= 1,
            ;
        }
    }
}

/// A multinomial coefficient is at most the factorial of its total.
pub(crate) proof fn lemma_mult_fact(c: Seq<int>)
    requires
        nonneg(c),
    ensures
        mult(c) <= fact(total(c)),
    decreases total(c), 1int, 0int,
{
    lemma_total_nonneg(c);
    let n = total(c);
    if n == 0 {
        assert forall|j: int| 0 <= j < c.len() implies #[trigger] c[j] == 0 by {}
        lemma_mult_empty_counts(c);
    } else {
        lemma_below_full(c);
        lemma_below_fact(c, c.len() as int);
        assert(c.take(c.len() as int) =~= c);
        assert(fact(n) == n * fact(n - 1));
    }
}

/// Every multinomial coefficient of at most 24 elements is below `2^80`.
pub(crate) proof fn lemma_mult_cap(c: Seq<int>)
    requires
        nonneg(c),
        total(c) <= 24,
    ensures
        mult(c) <= MULT_CAP,
        mult(c) >= 1,
{
    lemma_mult_fact(c);
    lemma_fact_le_cap(total(c));
    lemma_mult_pos(c);
}

pub(crate) proof fn lemma_u8_counts_nonneg(c: Seq<u8>)
    ensures
        nonneg(u8_counts(c)),
{
}

proof fn lemma_total_suffix(c: Seq<int>, i: int)
    requires
        0 <= i < c.len(),
    ensures
        total(c.subrange(i, c.len() as int)) == c[i] + total(c.subrange(i + 1, c.len() as int)),
{
    assert(c.subrange(i, c.len() as int).drop_first() =~= c.subrange(i + 1, c.len() as int));
}

/// The number of arrangements of a multiset with the given kind counts
/// (`n! / Π counts[i]!`, `n = Σ counts ≤ 24`).
pub fn multinomial(counts: &[u8]) -> (r: u128)
    requires
        counts_ok(counts@),
    ensures
        r == mult(u8_counts(counts@)),
        r <= MULT_CAP,
        counts@.len() <= 8 ==> r <= pow(8, 24),
{
    let ghost c = u8_counts(counts@);
    let len = counts.len();
    let mut acc: u128 = 1;
    let mut n: u8 = 0;
    let mut i: usize = len;
    proof {
        lemma_u8_counts_nonneg(counts@);
        lemma_total_nonneg(c);
        assert(c.subrange(len as int, len as int) =~= Seq::<int>::empty());
    }
    while i > 0
        invariant
            i <= len == counts.len() == c.len(),
            c == u8_counts(counts@),
            nonneg(c),
            total(c) <= 24,
            n == total(c.subrange(i as int, len as int)),
            n <= total(c),
            acc == mult(c.subrange(i as int, len as int)),
            acc <= MULT_CAP,
        decreases i,
    {
        i = i - 1;
        let k = counts[i];
        proof {
            lemma_total_suffix(c, i as int);
            lemma_total_nonneg(c.subrange(i as int, len as int));
            lemma_total_nonneg(c.subrange(i as int + 1, len as int));
            lemma_total_suffix_le(c, i as int);
        }
        let nn = n + k;
        let b = binomial(nn, k);
        proof {
            let s = c.subrange(i as int, len as int);
            assert(s.drop_first() =~= c.subrange(i as int + 1, len as int));
            assert(s[0] == k);
            lemma_mult_cap(s);
            lemma_mult_nonneg(c.subrange(i as int + 1, len as int));
            lemma_binom_nonneg(nn as int, k as int);
            assert(b * acc == mult(s));
        }
        acc = b * acc;
        n = nn;
    }
    proof {
        assert(c.subrange(0, len as int) =~= c);
        if len >= 1 && len <= 8 {
            lemma_mult_pow_bound(c);
            lemma_pow_base_mono(c.len() as int, 8, total(c));
            lemma_pow_mono(8, total(c), 24);
        } else if len == 0 {
            lemma_pow8_24();
        }
    }
    acc
}

pub(crate) proof fn lemma_pow8_24()
    ensures
        pow(8, 24) == 0x1_0000_0000_0000_0000_00,
        pow(8, 0) == 1,
{
    reveal_with_fuel(pow, 25);
}

pub(crate) proof fn lemma_total_suffix_le(c: Seq<int>, i: int)
    requires
        nonneg(c),
        0 <= i < c.len(),
    ensures
        total(c.subrange(i, c.len() as int)) <= total(c),
    decreases i,
{
    if i > 0 {
        lemma_total_suffix_le(c.drop_first(), i - 1);
        assert(c.drop_first().subrange(i - 1, c.len() - 1) =~= c.subrange(i, c.len() as int));
        lemma_total_nonneg(c.drop_first());
        lemma_total_nonneg(c);
    } else {
        assert(c.subrange(0, c.len() as int) =~= c);
    }
}

/// `mult(c - e_j) = mult(c) · c_j / n`, computed exactly.
fn mult_dec(cur: u128, cj: u8, n: u8, c: Ghost<Seq<int>>, j: Ghost<int>) -> (r: u128)
    requires
        nonneg(c@),
        0 <= j@ < c@.len(),
        c@[j@] == cj,
        cj > 0,
        n == total(c@),
        cur == mult(c@),
        cur <= MULT_CAP,
    ensures
        r == mult(dec(c@, j@)),
        r <= cur,
{
    proof {
        lemma_mult_dec(c@, j@);
        lemma_total_nonneg(c@);
        lemma_pow8_24();
        lemma_mult_nonneg(dec(c@, j@));
    }
    assert(cur * cj <= 0x1_0000_0000_0000_0000_0000 * 256) by (nonlinear_arith)
        requires
            cur <= 0x1_0000_0000_0000_0000_0000,
            cj < 256,
    ;
    let num = cur * (cj as u128);
    let r = num / (n as u128);
    proof {
        let md = mult(dec(c@, j@));
        let nn = n as int;
        let nm = num as int;
        assert(nm == nn * md);
        assert(nm / nn == md) by (nonlinear_arith)
            requires
                nm == nn * md,
                nn > 0,
        ;
        assert(md <= cur) by (nonlinear_arith)
            requires
                nn * md == cj * cur,
                cj <= nn,
                md >= 0,
                cur >= 0,
                nn > 0,
        ;
    }
    r
}

/// Multiset-permutation rank of `kind_at` (kind index per slot) among the
/// arrangements with the kind counts `counts` (kinds ordered by index).
pub fn perm_rank(kind_at: &[u8], counts: &[u8]) -> (r: u128)
    requires
        counts_ok(counts@),
        has_counts(u8_counts(kind_at@), u8_counts(counts@)),
    ensures
        r == rank(u8_counts(kind_at@), u8_counts(counts@)),
        r < mult(u8_counts(counts@)),
{
    let ghost c0 = u8_counts(counts@);
    let ghost s0 = u8_counts(kind_at@);
    proof {
        lemma_u8_counts_nonneg(counts@);
        lemma_rank_bound(s0, c0);
        lemma_total_nonneg(c0);
    }
    let mut c = vstd::slice::slice_to_vec(counts);
    let mut cur = multinomial(counts);
    let mut n: u8 = kind_at.len() as u8;
    let mut acc: u128 = 0;
    proof {
        assert(s0.subrange(0, s0.len() as int) =~= s0);
        assert(u8_counts(c@) =~= c0);
    }
    let mut slot: usize = 0;
    while slot < kind_at.len()
        invariant
            slot <= kind_at.len() == s0.len(),
            s0 == u8_counts(kind_at@),
            c@.len() == c0.len(),
            nonneg(u8_counts(c@)),
            n == total(u8_counts(c@)),
            n + slot == s0.len(),
            cur == mult(u8_counts(c@)),
            cur <= MULT_CAP,
            has_counts(s0.subrange(slot as int, s0.len() as int), u8_counts(c@)),
            acc + rank(s0.subrange(slot as int, s0.len() as int), u8_counts(c@)) == rank(s0, c0),
            rank(s0, c0) < mult(c0),
            mult(c0) <= MULT_CAP,
        decreases kind_at.len() - slot,
    {
        let ghost cs = u8_counts(c@);
        let ghost rest = s0.subrange(slot as int, s0.len() as int);
        let k = kind_at[slot];
        proof {
            assert(rest[0] == k);
            assert(rest.drop_first() =~= s0.subrange(slot as int + 1, s0.len() as int));
            lemma_rank_bound(rest.drop_first(), dec(cs, k as int));
            lemma_below_mono(cs, 0, k as int);
        }
        let mut j: u8 = 0;
        let mut part: u128 = 0;
        while j < k
            invariant
                j <= k,
                (k as int) < cs.len(),
                cs == u8_counts(c@),
                nonneg(cs),
                n == total(cs),
                cur == mult(cs),
                cur <= MULT_CAP,
                part == below(cs, j as int),
                acc + below(cs, k as int) <= rank(s0, c0),
                rank(s0, c0) < mult(c0),
                mult(c0) <= MULT_CAP,
            decreases k - j,
        {
            proof {
                lemma_below_mono(cs, j as int + 1, k as int);
                lemma_pow8_24();
            }
            if c[j as usize] > 0 {
                let m = mult_dec(cur, c[j as usize], n, Ghost(cs), Ghost(j as int));
                part = part + m;
            }
            j = j + 1;
        }
        proof {
            lemma_pow8_24();
        }
        acc = acc + part;
        let ck = c[k as usize];
        let nxt = mult_dec(cur, ck, n, Ghost(cs), Ghost(k as int));
        proof {
            lemma_total_dec(cs, k as int);
        }
        c.set(k as usize, ck - 1);
        proof {
            assert(u8_counts(c@) =~= dec(cs, k as int));
        }
        cur = nxt;
        n = n - 1;
        slot = slot + 1;
    }
    proof {
        assert(s0.subrange(slot as int, s0.len() as int) =~= Seq::<int>::empty());
    }
    acc
}

/// Inverse of [`perm_rank`]: the arrangement (kind index per slot) with the
/// given counts and rank.
pub fn perm_unrank(r: u128, counts: &[u8]) -> (out: Vec<u8>)
    requires
        counts_ok(counts@),
        counts@.len() <= 256,
        r < mult(u8_counts(counts@)),
    ensures
        u8_counts(out@) == unrank(r as int, u8_counts(counts@), total(u8_counts(counts@)) as nat),
        has_counts(u8_counts(out@), u8_counts(counts@)),
        rank(u8_counts(out@), u8_counts(counts@)) == r,
        out@.len() == total(u8_counts(counts@)),
{
    let ghost c0 = u8_counts(counts@);
    proof {
        lemma_u8_counts_nonneg(counts@);
        lemma_total_nonneg(c0);
        lemma_unrank(r as int, c0);
        lemma_pow8_24();
    }
    let ghost target = unrank(r as int, c0, total(c0) as nat);
    let mut c = vstd::slice::slice_to_vec(counts);
    let mut cur = multinomial(counts);
    let mut n: u8 = 0;
    let mut t: usize = 0;
    while t < counts.len()
        invariant
            t <= counts.len(),
            c@ == counts@,
            n == total(c0.subrange(0, t as int)),
            nonneg(c0),
            total(c0) <= 24,
            c0 == u8_counts(counts@),
        decreases counts.len() - t,
    {
        proof {
            lemma_total_take(c0, t as int + 1);
            assert(c0.take(t as int + 1) =~= c0.subrange(0, t as int + 1));
            assert(c0.take(t as int) =~= c0.subrange(0, t as int));
            lemma_total_prefix_le(c0, t as int + 1);
        }
        n = n + counts[t];
        t = t + 1;
    }
    proof {
        assert(c0.subrange(0, counts.len() as int) =~= c0);
    }
    let total_n = n;
    let mut out: Vec<u8> = Vec::new();
    let mut rem: u128 = r;
    while n > 0
        invariant
            c@.len() == c0.len(),
            c0.len() <= 256,
            nonneg(u8_counts(c@)),
            n == total(u8_counts(c@)),
            n as int + out.len() == total_n as int,
            total_n as int == total(c0),
            cur == mult(u8_counts(c@)),
            cur <= MULT_CAP,
            rem < cur,
            u8_counts(out@).add(unrank(rem as int, u8_counts(c@), n as nat)) == target,
        decreases n,
    {
        let ghost cs = u8_counts(c@);
        proof {
            lemma_below_full(cs);
        }
        let mut j: usize = 0;
        let mut left: u128 = rem;
        let mut chosen: usize = 0;
        let mut found = false;
        while j < c.len() && !found
            invariant
                j as int <= cs.len(),
                cs.len() == c@.len() <= 256,
                cs == u8_counts(c@),
                nonneg(cs),
                n == total(cs),
                n > 0,
                cur == mult(cs),
                cur <= MULT_CAP,
                rem < below(cs, cs.len() as int),
                !found ==> left as int == rem - below(cs, j as int),
                !found ==> pick(rem as int, cs, 0) == pick(rem as int, cs, j as int),
                !found ==> below(cs, j as int) <= rem,
                found ==> chosen as int == pick(rem as int, cs, 0) && chosen < cs.len() && cs[chosen as int] > 0
                    && left as int == rem - below(cs, chosen as int),
            decreases cs.len() - j, if found { 0int } else { 1int },
        {
            if c[j as usize] > 0 {
                let m = mult_dec(cur, c[j as usize], n, Ghost(cs), Ghost(j as int));
                if left < m {
                    chosen = j;
                    found = true;
                } else {
                    left = left - m;
                    proof {
                        lemma_pick_step(rem as int, cs, j as int);
                    }
                    j = j + 1;
                }
            } else {
                proof {
                    lemma_pick_step(rem as int, cs, j as int);
                }
                j = j + 1;
            }
        }
        proof {
            if !found {
                lemma_below_mono(cs, j as int, cs.len() as int);
                assert(false);
            }
        }
        let ck = c[chosen as usize];
        let nxt = mult_dec(cur, ck, n, Ghost(cs), Ghost(chosen as int));
        proof {
            lemma_total_dec(cs, chosen as int);
            lemma_pick(rem as int, cs, 0);
            lemma_below_mono(cs, 0, chosen as int);
            let ghost u = unrank(rem as int, cs, n as nat);
            assert(u =~= seq![chosen as int].add(unrank(left as int, dec(cs, chosen as int), (n - 1) as nat)));
        }
        c.set(chosen as usize, ck - 1);
        proof {
            assert(u8_counts(c@) =~= dec(cs, chosen as int));
            assert(u8_counts(out@.push(chosen as u8)) =~= u8_counts(out@).push(chosen as int));
            assert(u8_counts(out@).push(chosen as int).add(unrank(left as int, dec(cs, chosen as int), (n - 1) as nat))
                =~= u8_counts(out@).add(seq![chosen as int].add(unrank(left as int, dec(cs, chosen as int), (n - 1) as nat))));
        }
        out.push(chosen as u8);
        cur = nxt;
        rem = left;
        n = n - 1;
    }
    proof {
        assert(unrank(rem as int, u8_counts(c@), 0) =~= Seq::<int>::empty());
        assert(u8_counts(out@) =~= target);
    }
    out
}

proof fn lemma_pick_step(r: int, c: Seq<int>, j: int)
    requires
        0 <= j < c.len(),
        r >= below(c, j + 1),
    ensures
        pick(r, c, j) == pick(r, c, j + 1),
{
}

proof fn lemma_total_prefix_le(c: Seq<int>, k: int)
    requires
        nonneg(c),
        0 <= k <= c.len(),
    ensures
        0 <= total(c.take(k)) <= total(c),
    decreases c.len() - k,
{
    if k < c.len() {
        lemma_total_prefix_le(c, k + 1);
        lemma_total_take(c, k + 1);
        assert(nonneg(c.take(k)));
        lemma_total_nonneg(c.take(k));
    } else {
        assert(c.take(k) =~= c);
        lemma_total_nonneg(c);
    }
}

} // verus!
