//! The equivalence classes of the Leech shells `2 ..= 13`.
//!
//! A class is a parity coset together with a multiset of absolute
//! coordinate values.
//!
//! **Even classes** (values 0, 2, 4, …): the positions carrying *word
//! values* `{2, 6, 10, 14}` (≡ 2 mod 4) form a Golay codeword, so their
//! count `w` is a Golay weight; the *free values* `{4, 8, 12}` sit off the
//! support with free signs. The minus signs among word values have the
//! fixed parity `p_req = (S₀ / 4) mod 2` (`S₀` the sum of all values); a
//! `w = 0` class exists only if `p_req = 0`.
//!
//! **Odd classes** (values 1, 3, …, 13): signs are forced by the codeword,
//! and the sum condition reduces to `n₁ + n₇ + n₉` odd.
//!
//! Enumeration order: even classes by the count vector
//! `(n14, n10, n6, n2, n12, n8, n4)` ascending lexicographically, odd
//! classes by `(n13, n11, n9, n7, n5, n3)`.
use vstd::prelude::*;

use crate::combin::{binom, lemma_pow8_24, multinomial, mult, nonneg, pow, total, u8_counts};
use crate::golay::{is_code_weight, weight_distribution};

verus! {

/// Highest supported shell (`‖x‖² = 16·13 = 208`, exactly 2 bits/dim).
pub const MAX_SHELL: u32 = 13;

/// Golay codeword count per weight (0 for non-weights).
pub fn gamma(w: u32) -> (r: u64)
    ensures
        r == weight_distribution(w as int),
{
    if w == 0 {
        1
    } else if w == 8 {
        759
    } else if w == 12 {
        2576
    } else if w == 16 {
        759
    } else if w == 24 {
        1
    } else {
        0
    }
}

/// An even-coset class.
#[derive(Clone, Debug)]
pub struct EvenClass {
    /// Shell index m (‖x‖² = 16m).
    pub shell: u32,
    /// Word values `(value, count)`, value ≡ 2 (mod 4), descending.
    pub word_vals: Vec<(u8, u8)>,
    /// Free values `(value, count)`, value ≡ 0 (mod 4) and > 0, descending.
    pub free_vals: Vec<(u8, u8)>,
    /// Golay weight `w = Σ word counts`.
    pub w: u32,
    /// Required minus-sign parity among word values.
    pub p_req: u8,
}

/// An odd-coset class (all 24 coordinates odd).
#[derive(Clone, Debug)]
pub struct OddClass {
    /// Shell index m.
    pub shell: u32,
    /// Absolute values `(value, count)`, descending; Σ counts = 24.
    pub vals: Vec<(u8, u8)>,
}

/// All classes of shells `2 ..= max_shell`.
pub struct ClassSet {
    pub even: Vec<EvenClass>,
    pub odd: Vec<OddClass>,
}

// ---------------------------------------------------------------------------
// Count vectors
// ---------------------------------------------------------------------------
/// Even count vector `[n14, n10, n6, n2, n12, n8, n4]` at box position `t`
/// (mixed radix 2·3·6·53·2·4·14, most significant first).
pub open spec fn even_digits(t: int) -> Seq<int> {
    let t1 = t / 14;
    let t2 = t1 / 4;
    let t3 = t2 / 2;
    let t4 = t3 / 53;
    let t5 = t4 / 6;
    seq![(t5 / 3) % 2, t5 % 3, t4 % 6, t3 % 53, t2 % 2, t1 % 4, t % 14]
}

/// Box position of an even count vector (inverse of [`even_digits`]).
pub open spec fn even_pos(d: Seq<int>) -> int {
    (((((d[0] * 3 + d[1]) * 6 + d[2]) * 53 + d[3]) * 2 + d[4]) * 4 + d[5]) * 14 + d[6]
}

/// Radix of digit `k` of the even box.
pub open spec fn even_radix(k: int) -> int {
    if k == 0 {
        2
    } else if k == 1 {
        3
    } else if k == 2 {
        6
    } else if k == 3 {
        53
    } else if k == 4 {
        2
    } else if k == 5 {
        4
    } else {
        14
    }
}

pub const EVEN_BOX: u32 = 213696;

/// Odd count vector `[n13, n11, n9, n7, n5, n3]` at box position `t`
/// (mixed radix 2·2·3·5·9·25).
pub open spec fn odd_digits(t: int) -> Seq<int> {
    let t1 = t / 25;
    let t2 = t1 / 9;
    let t3 = t2 / 5;
    let t4 = t3 / 3;
    seq![(t4 / 2) % 2, t4 % 2, t3 % 3, t2 % 5, t1 % 9, t % 25]
}

/// Box position of an odd count vector (inverse of [`odd_digits`]).
pub open spec fn odd_pos(d: Seq<int>) -> int {
    ((((d[0] * 2 + d[1]) * 3 + d[2]) * 5 + d[3]) * 9 + d[4]) * 25 + d[5]
}

/// Radix of digit `k` of the odd box.
pub open spec fn odd_radix(k: int) -> int {
    if k == 0 {
        2
    } else if k == 1 {
        2
    } else if k == 2 {
        3
    } else if k == 3 {
        5
    } else if k == 4 {
        9
    } else {
        25
    }
}

pub const ODD_BOX: u32 = 13500;

/// Golay weight of an even count vector.
pub open spec fn even_w(d: Seq<int>) -> int {
    d[0] + d[1] + d[2] + d[3]
}

pub open spec fn even_norm(d: Seq<int>) -> int {
    196 * d[0] + 100 * d[1] + 36 * d[2] + 4 * d[3] + 144 * d[4] + 64 * d[5] + 16 * d[6]
}

/// Sum of all values.
pub open spec fn even_s0(d: Seq<int>) -> int {
    14 * d[0] + 10 * d[1] + 6 * d[2] + 2 * d[3] + 12 * d[4] + 8 * d[5] + 4 * d[6]
}

pub open spec fn even_free_n(d: Seq<int>) -> int {
    d[4] + d[5] + d[6]
}

pub open spec fn even_p_req(d: Seq<int>) -> int {
    (even_s0(d) / 4) % 2
}

/// `d` is the count vector of a non-empty even class of a shell `2 ..= ms`.
pub open spec fn even_valid(d: Seq<int>, ms: int) -> bool {
    &&& d.len() == 7
    &&& forall|k: int| 0 <= k < 7 ==> 0 <= #[trigger] d[k]
    &&& even_w(d) <= 24
    &&& is_code_weight(even_w(d))
    &&& even_w(d) + even_free_n(d) <= 24
    &&& even_norm(d) % 16 == 0
    &&& 2 <= even_norm(d) / 16 <= ms
    &&& (even_w(d) != 0 || even_p_req(d) == 0)
}

pub open spec fn odd_heavy(d: Seq<int>) -> int {
    d[0] + d[1] + d[2] + d[3] + d[4] + d[5]
}

/// Count of value 1.
pub open spec fn odd_n1(d: Seq<int>) -> int {
    24 - odd_heavy(d)
}

pub open spec fn odd_norm(d: Seq<int>) -> int {
    169 * d[0] + 121 * d[1] + 81 * d[2] + 49 * d[3] + 25 * d[4] + 9 * d[5] + odd_n1(d)
}

/// `d` is the count vector of an odd class of a shell `2 ..= ms`.
pub open spec fn odd_valid(d: Seq<int>, ms: int) -> bool {
    &&& d.len() == 6
    &&& forall|k: int| 0 <= k < 6 ==> 0 <= #[trigger] d[k]
    &&& odd_heavy(d) <= 24
    &&& odd_norm(d) % 16 == 0
    &&& 2 <= odd_norm(d) / 16 <= ms
    &&& (odd_n1(d) + d[3] + d[2]) % 2 == 1
}

/// The non-zero `(value, count)` pairs, in order.
pub open spec fn nz_pairs(s: Seq<(int, int)>) -> Seq<(u8, u8)>
    decreases s.len(),
{
    if s.len() == 0 {
        Seq::empty()
    } else {
        let rest = nz_pairs(s.drop_last());
        let (v, n) = s.last();
        if n > 0 {
            rest.push((v as u8, n as u8))
        } else {
            rest
        }
    }
}

pub open spec fn even_word_pairs(d: Seq<int>) -> Seq<(u8, u8)> {
    nz_pairs(seq![(14, d[0]), (10, d[1]), (6, d[2]), (2, d[3])])
}

pub open spec fn even_free_pairs(d: Seq<int>) -> Seq<(u8, u8)> {
    nz_pairs(seq![(12, d[4]), (8, d[5]), (4, d[6])])
}

pub open spec fn odd_pairs(d: Seq<int>) -> Seq<(u8, u8)> {
    nz_pairs(
        seq![(13, d[0]), (11, d[1]), (9, d[2]), (7, d[3]), (5, d[4]), (3, d[5]), (1, odd_n1(d))],
    )
}

/// The class built from the even count vector `d`.
pub open spec fn even_class_is(c: EvenClass, d: Seq<int>) -> bool {
    &&& c.shell == even_norm(d) / 16
    &&& c.w == even_w(d)
    &&& c.p_req == even_p_req(d)
    &&& c.word_vals@ == even_word_pairs(d)
    &&& c.free_vals@ == even_free_pairs(d)
}

/// The class built from the odd count vector `d`.
pub open spec fn odd_class_is(c: OddClass, d: Seq<int>) -> bool {
    &&& c.shell == odd_norm(d) / 16
    &&& c.vals@ == odd_pairs(d)
}

/// The valid even count vectors among the first `t` box positions, in order.
pub open spec fn even_list(t: int, ms: int) -> Seq<Seq<int>>
    decreases t,
{
    if t <= 0 {
        Seq::empty()
    } else if even_valid(even_digits(t - 1), ms) {
        even_list(t - 1, ms).push(even_digits(t - 1))
    } else {
        even_list(t - 1, ms)
    }
}

/// The valid odd count vectors among the first `t` box positions, in order.
pub open spec fn odd_list(t: int, ms: int) -> Seq<Seq<int>>
    decreases t,
{
    if t <= 0 {
        Seq::empty()
    } else if odd_valid(odd_digits(t - 1), ms) {
        odd_list(t - 1, ms).push(odd_digits(t - 1))
    } else {
        odd_list(t - 1, ms)
    }
}

// ---------------------------------------------------------------------------
// Cardinalities
// ---------------------------------------------------------------------------
pub open spec fn pair_counts(s: Seq<(u8, u8)>) -> Seq<u8> {
    s.map_values(|p: (u8, u8)| p.1)
}

pub open spec fn pair_total(s: Seq<(u8, u8)>) -> int {
    total(u8_counts(pair_counts(s)))
}

pub open spec fn pow2(e: int) -> int {
    pow(2, e)
}

impl EvenClass {
    /// Internal consistency of the fields (what a class from
    /// [`enumerate_classes`] satisfies).
    pub open spec fn wf(&self) -> bool {
        &&& self.w <= 24
        &&& pair_total(self.word_vals@) == self.w
        &&& self.w + pair_total(self.free_vals@) <= 24
    }

    pub open spec fn free_n(&self) -> int {
        pair_total(self.free_vals@)
    }

    /// `γ(w) · 2^(w−1 or 0) · 2^free · w!/Π word! · (24−w)!/(n₀! Π free!)`.
    pub open spec fn card(&self) -> int {
        weight_distribution(self.w as int) * (if self.w == 0 {
            1
        } else {
            pow2(self.w - 1)
        }) * pow2(self.free_n()) * mult(u8_counts(pair_counts(self.word_vals@))) * mult(
            u8_counts(pair_counts(self.free_vals@).push((24 - self.w - self.free_n()) as u8)),
        )
    }

    /// The number of lattice points in the class.
    pub fn cardinality(&self) -> (r: u64)
        requires
            self.wf(),
            self.card() <= u64::MAX,
        ensures
            r == self.card(),
    {
        let word_counts = counts_of(&self.word_vals);
        let mut off_counts = counts_of(&self.free_vals);
        let free_n = sum_counts(&off_counts);
        proof {
            assert(off_counts@ == pair_counts(self.free_vals@));
            assert(word_counts@ == pair_counts(self.word_vals@));
        }
        let n0 = (24 - self.w - free_n) as u8;
        off_counts.push(n0);
        proof {
            lemma_total_push(u8_counts(pair_counts(self.free_vals@)), n0 as int);
            assert(u8_counts(off_counts@) =~= u8_counts(pair_counts(self.free_vals@)).push(
                n0 as int,
            ));
        }
        let arr_on = multinomial(word_counts.as_slice());
        let arr_off = multinomial(off_counts.as_slice());
        let sign_word: u128 = if self.w == 0 {
            1
        } else {
            pow2_exec(self.w - 1)
        };
        let sign_free = pow2_exec(free_n);
        let g = gamma(self.w) as u128;
        proof {
            lemma_pow8_24();
            crate::combin::lemma_mult_pos(u8_counts(word_counts@));
            crate::combin::lemma_mult_pos(u8_counts(off_counts@));
            lemma_card_product(
                g as int,
                sign_word as int,
                sign_free as int,
                arr_on as int,
                arr_off as int,
            );
        }
        (g * sign_word * sign_free * arr_on * arr_off) as u64
    }
}

impl OddClass {
    pub open spec fn wf(&self) -> bool {
        &&& pair_total(self.vals@) == 24
    }

    /// `4096 · 24! / Π counts!`.
    pub open spec fn card(&self) -> int {
        4096 * mult(u8_counts(pair_counts(self.vals@)))
    }

    /// The number of lattice points in the class.
    pub fn cardinality(&self) -> (r: u64)
        requires
            self.wf(),
            self.card() <= u64::MAX,
        ensures
            r == self.card(),
    {
        let counts = counts_of(&self.vals);
        let arr = multinomial(counts.as_slice());
        proof {
            lemma_pow8_24();
        }
        (4096 * arr) as u64
    }
}

/// Partial products of positive factors stay below the full product.
proof fn lemma_card_product(g: int, sw: int, sf: int, a: int, b: int)
    requires
        0 <= g,
        1 <= sw,
        1 <= sf,
        1 <= a,
        1 <= b,
        g * sw * sf * a * b <= u64::MAX,
    ensures
        g * sw <= u64::MAX,
        g * sw * sf <= u64::MAX,
        g * sw * sf * a <= u64::MAX,
{
    assert(g * sw <= g * sw * sf * a * b && g * sw * sf <= g * sw * sf * a * b && g * sw * sf
        * a <= g * sw * sf * a * b) by (nonlinear_arith)
        requires
            0 <= g,
            1 <= sw,
            1 <= sf,
            1 <= a,
            1 <= b,
    ;
}

proof fn lemma_total_push(c: Seq<int>, x: int)
    ensures
        total(c.push(x)) == total(c) + x,
    decreases c.len(),
{
    if c.len() > 0 {
        lemma_total_push(c.drop_first(), x);
        assert(c.push(x).drop_first() =~= c.drop_first().push(x));
    } else {
        assert(c.push(x).drop_first() =~= Seq::<int>::empty());
        assert(c.push(x)[0] == x);
        assert(total(Seq::<int>::empty()) == 0);
    }
}

/// `2^e` for `e ≤ 24`.
pub(crate) fn pow2_exec(e: u32) -> (r: u128)
    requires
        e <= 24,
    ensures
        r == pow2(e as int),
        1 <= r <= 0x100_0000,
{
    let mut r: u128 = 1;
    let mut i: u32 = 0;
    while i < e
        invariant
            i <= e <= 24,
            r == pow(2, i as int),
            1 <= r <= pow(2, i as int),
            pow(2, i as int) <= 0x100_0000,
        decreases e - i,
    {
        proof {
            lemma_pow2_le(i as int + 1);
        }
        r = r * 2;
        i = i + 1;
    }
    proof {
        lemma_pow2_le(e as int);
    }
    r
}

proof fn lemma_pow2_le(e: int)
    requires
        0 <= e <= 24,
    ensures
        pow(2, e) <= 0x100_0000,
        pow(2, e) >= 1,
{
    crate::combin::lemma_pow_mono(2, e, 24);
    crate::combin::lemma_pow_mono(2, 0, e);
    reveal_with_fuel(pow, 25);
}

/// The count column of `(value, count)` pairs.
fn counts_of(pairs: &Vec<(u8, u8)>) -> (r: Vec<u8>)
    ensures
        r@ == pair_counts(pairs@),
{
    let mut r: Vec<u8> = Vec::new();
    let mut i: usize = 0;
    while i < pairs.len()
        invariant
            i <= pairs.len(),
            r@ == pair_counts(pairs@.subrange(0, i as int)),
        decreases pairs.len() - i,
    {
        proof {
            assert(pair_counts(pairs@.subrange(0, i as int + 1)) =~= pair_counts(
                pairs@.subrange(0, i as int),
            ).push(pairs@[i as int].1));
        }
        r.push(pairs[i].1);
        i = i + 1;
    }
    proof {
        assert(pairs@.subrange(0, pairs.len() as int) =~= pairs@);
    }
    r
}

/// `Σ counts` (at most 24 in every use).
fn sum_counts(c: &Vec<u8>) -> (r: u32)
    requires
        total(u8_counts(c@)) <= 24,
    ensures
        r == total(u8_counts(c@)),
{
    let ghost cs = u8_counts(c@);
    let mut r: u32 = 0;
    let mut i: usize = c.len();
    proof {
        assert(cs.subrange(i as int, i as int) =~= Seq::<int>::empty());
        crate::combin::lemma_u8_counts_nonneg(c@);
    }
    while i > 0
        invariant
            i <= c.len(),
            cs == u8_counts(c@),
            r == total(cs.subrange(i as int, c.len() as int)),
            nonneg(cs),
            total(cs) <= 24,
        decreases i,
    {
        i = i - 1;
        proof {
            crate::combin::lemma_total_suffix_le(cs, i as int);
            assert(cs.subrange(i as int, c.len() as int).drop_first() =~= cs.subrange(
                i as int + 1,
                c.len() as int,
            ));
        }
        r = r + c[i] as u32;
    }
    proof {
        assert(cs.subrange(0, c.len() as int) =~= cs);
    }
    r
}

// ---------------------------------------------------------------------------
// Enumeration
// ---------------------------------------------------------------------------
fn push_nz(v: &mut Vec<(u8, u8)>, val: u8, n: u32)
    requires
        n <= 24,
    ensures
        final(v)@ == (if n > 0 {
            old(v)@.push((val, n as u8))
        } else {
            old(v)@
        }),
{
    if n > 0 {
        v.push((val, n as u8));
    }
}

proof fn lemma_nz_pairs_push(s: Seq<(int, int)>, p: (int, int))
    ensures
        nz_pairs(s.push(p)) == (if p.1 > 0 {
            nz_pairs(s).push((p.0 as u8, p.1 as u8))
        } else {
            nz_pairs(s)
        }),
{
    assert(s.push(p).drop_last() =~= s);
}

pub(crate) proof fn lemma_pair_total_nz(s: Seq<(int, int)>)
    requires
        forall|i: int| 0 <= i < s.len() ==> 0 <= (#[trigger] s[i]).1 <= 24,
    ensures
        pair_total(nz_pairs(s)) == sum_second(s),
        nz_pairs(s).len() <= s.len(),
    decreases s.len(),
{
    if s.len() > 0 {
        lemma_pair_total_nz(s.drop_last());
        let p = s.last();
        let rest = nz_pairs(s.drop_last());
        if p.1 > 0 {
            assert(pair_counts(rest.push((p.0 as u8, p.1 as u8))) =~= pair_counts(rest).push(
                p.1 as u8,
            ));
            assert(u8_counts(pair_counts(rest).push(p.1 as u8)) =~= u8_counts(pair_counts(rest)).push(
                p.1 as int,
            ));
            lemma_total_push(u8_counts(pair_counts(rest)), p.1 as int);
        }
    }
}

/// Sum of the second components.
pub open spec fn sum_second(s: Seq<(int, int)>) -> int
    decreases s.len(),
{
    if s.len() == 0 {
        0
    } else {
        sum_second(s.drop_last()) + s.last().1
    }
}

fn even_class_from(d: [u32; 7], ghost_d: Ghost<Seq<int>>) -> (c: EvenClass)
    requires
        ghost_d@ == d@.map_values(|x: u32| x as int),
        even_valid(ghost_d@, 13),
    ensures
        even_class_is(c, ghost_d@),
        c.wf(),
{
    let ghost g = ghost_d@;
    assert(d[0] as int == g[0] && d[1] as int == g[1] && d[2] as int == g[2] && d[3] as int
        == g[3] && d[4] as int == g[4] && d[5] as int == g[5] && d[6] as int == g[6]);
    let mut word_vals: Vec<(u8, u8)> = Vec::new();
    push_nz(&mut word_vals, 14, d[0]);
    push_nz(&mut word_vals, 10, d[1]);
    push_nz(&mut word_vals, 6, d[2]);
    push_nz(&mut word_vals, 2, d[3]);
    let mut free_vals: Vec<(u8, u8)> = Vec::new();
    push_nz(&mut free_vals, 12, d[4]);
    push_nz(&mut free_vals, 8, d[5]);
    push_nz(&mut free_vals, 4, d[6]);
    let w = d[0] + d[1] + d[2] + d[3];
    let s0 = 14 * d[0] + 10 * d[1] + 6 * d[2] + 2 * d[3] + 12 * d[4] + 8 * d[5] + 4 * d[6];
    let norm = 196 * d[0] + 100 * d[1] + 36 * d[2] + 4 * d[3] + 144 * d[4] + 64 * d[5] + 16
        * d[6];
    proof {
        let ws = seq![(14int, g[0]), (10int, g[1]), (6int, g[2]), (2int, g[3])];
        let fs = seq![(12int, g[4]), (8int, g[5]), (4int, g[6])];
        lemma_nz_pairs_push(seq![(14int, g[0]), (10int, g[1]), (6int, g[2])], (2int, g[3]));
        lemma_nz_pairs_push(seq![(14int, g[0]), (10int, g[1])], (6int, g[2]));
        lemma_nz_pairs_push(seq![(14int, g[0])], (10int, g[1]));
        lemma_nz_pairs_push(Seq::<(int, int)>::empty(), (14int, g[0]));
        assert(seq![(14int, g[0]), (10int, g[1]), (6int, g[2])].push((2int, g[3])) =~= ws);
        assert(seq![(14int, g[0]), (10int, g[1])].push((6int, g[2])) =~= seq![
            (14int, g[0]),
            (10int, g[1]),
            (6int, g[2]),
        ]);
        assert(seq![(14int, g[0])].push((10int, g[1])) =~= seq![(14int, g[0]), (10int, g[1])]);
        assert(Seq::<(int, int)>::empty().push((14int, g[0])) =~= seq![(14int, g[0])]);
        lemma_nz_pairs_push(seq![(12int, g[4]), (8int, g[5])], (4int, g[6]));
        lemma_nz_pairs_push(seq![(12int, g[4])], (8int, g[5]));
        lemma_nz_pairs_push(Seq::<(int, int)>::empty(), (12int, g[4]));
        assert(seq![(12int, g[4]), (8int, g[5])].push((4int, g[6])) =~= fs);
        assert(seq![(12int, g[4])].push((8int, g[5])) =~= seq![(12int, g[4]), (8int, g[5])]);
        assert(Seq::<(int, int)>::empty().push((12int, g[4])) =~= seq![(12int, g[4])]);
        assert(nz_pairs(Seq::<(int, int)>::empty()) =~= Seq::<(u8, u8)>::empty());
        lemma_pair_total_nz(ws);
        lemma_pair_total_nz(fs);
        reveal_with_fuel(sum_second, 5);
        assert(sum_second(ws) == g[0] + g[1] + g[2] + g[3]) by {
            assert(ws.drop_last() =~= seq![(14int, g[0]), (10int, g[1]), (6int, g[2])]);
            assert(ws.drop_last().drop_last() =~= seq![(14int, g[0]), (10int, g[1])]);
            assert(ws.drop_last().drop_last().drop_last() =~= seq![(14int, g[0])]);
            assert(ws.drop_last().drop_last().drop_last().drop_last() =~= Seq::<(int, int)>::empty());
        }
        assert(sum_second(fs) == g[4] + g[5] + g[6]) by {
            assert(fs.drop_last() =~= seq![(12int, g[4]), (8int, g[5])]);
            assert(fs.drop_last().drop_last() =~= seq![(12int, g[4])]);
            assert(fs.drop_last().drop_last().drop_last() =~= Seq::<(int, int)>::empty());
        }
    }
    EvenClass { shell: norm / 16, word_vals, free_vals, w, p_req: ((s0 / 4) % 2) as u8 }
}

fn odd_class_from(d: [u32; 6], ghost_d: Ghost<Seq<int>>) -> (c: OddClass)
    requires
        ghost_d@ == d@.map_values(|x: u32| x as int),
        odd_valid(ghost_d@, 13),
    ensures
        odd_class_is(c, ghost_d@),
        c.wf(),
{
    let ghost g = ghost_d@;
    assert(d[0] as int == g[0] && d[1] as int == g[1] && d[2] as int == g[2] && d[3] as int
        == g[3] && d[4] as int == g[4] && d[5] as int == g[5]);
    let n1 = 24 - (d[0] + d[1] + d[2] + d[3] + d[4] + d[5]);
    let mut vals: Vec<(u8, u8)> = Vec::new();
    push_nz(&mut vals, 13, d[0]);
    push_nz(&mut vals, 11, d[1]);
    push_nz(&mut vals, 9, d[2]);
    push_nz(&mut vals, 7, d[3]);
    push_nz(&mut vals, 5, d[4]);
    push_nz(&mut vals, 3, d[5]);
    push_nz(&mut vals, 1, n1);
    let norm = 169 * d[0] + 121 * d[1] + 81 * d[2] + 49 * d[3] + 25 * d[4] + 9 * d[5] + n1;
    proof {
        let s1 = seq![(13int, g[0])];
        let s2 = s1.push((11int, g[1]));
        let s3 = s2.push((9int, g[2]));
        let s4 = s3.push((7int, g[3]));
        let s5 = s4.push((5int, g[4]));
        let s6 = s5.push((3int, g[5]));
        let s7 = s6.push((1int, odd_n1(g)));
        lemma_nz_pairs_push(Seq::<(int, int)>::empty(), (13int, g[0]));
        assert(Seq::<(int, int)>::empty().push((13int, g[0])) =~= s1);
        assert(nz_pairs(Seq::<(int, int)>::empty()) =~= Seq::<(u8, u8)>::empty());
        lemma_nz_pairs_push(s1, (11int, g[1]));
        lemma_nz_pairs_push(s2, (9int, g[2]));
        lemma_nz_pairs_push(s3, (7int, g[3]));
        lemma_nz_pairs_push(s4, (5int, g[4]));
        lemma_nz_pairs_push(s5, (3int, g[5]));
        lemma_nz_pairs_push(s6, (1int, odd_n1(g)));
        assert(s7 =~= seq![
            (13int, g[0]),
            (11int, g[1]),
            (9int, g[2]),
            (7int, g[3]),
            (5int, g[4]),
            (3int, g[5]),
            (1int, odd_n1(g)),
        ]);
        lemma_pair_total_nz(s7);
        reveal_with_fuel(sum_second, 8);
        assert(s7.drop_last() =~= s6);
        assert(s6.drop_last() =~= s5);
        assert(s5.drop_last() =~= s4);
        assert(s4.drop_last() =~= s3);
        assert(s3.drop_last() =~= s2);
        assert(s2.drop_last() =~= s1);
        assert(s1.drop_last() =~= Seq::<(int, int)>::empty());
        assert(sum_second(s7) == 24);
    }
    OddClass { shell: norm / 16, vals }
}

fn even_digits_exec(t: u32) -> (d: [u32; 7])
    requires
        t < EVEN_BOX,
    ensures
        d@.map_values(|x: u32| x as int) == even_digits(t as int),
        forall|k: int| 0 <= k < 7 ==> d[k] <= 52,
{
    let t1 = t / 14;
    let t2 = t1 / 4;
    let t3 = t2 / 2;
    let t4 = t3 / 53;
    let t5 = t4 / 6;
    let d = [(t5 / 3) % 2, t5 % 3, t4 % 6, t3 % 53, t2 % 2, t1 % 4, t % 14];
    assert(d@.map_values(|x: u32| x as int) =~= even_digits(t as int));
    d
}

fn odd_digits_exec(t: u32) -> (d: [u32; 6])
    requires
        t < ODD_BOX,
    ensures
        d@.map_values(|x: u32| x as int) == odd_digits(t as int),
        forall|k: int| 0 <= k < 6 ==> d[k] <= 24,
{
    let t1 = t / 25;
    let t2 = t1 / 9;
    let t3 = t2 / 5;
    let t4 = t3 / 3;
    let d = [(t4 / 2) % 2, t4 % 2, t3 % 3, t2 % 5, t1 % 9, t % 25];
    assert(d@.map_values(|x: u32| x as int) =~= odd_digits(t as int));
    d
}

fn even_valid_exec(d: &[u32; 7], max_shell: u32, g: Ghost<Seq<int>>) -> (r: bool)
    requires
        g@ == d@.map_values(|x: u32| x as int),
        forall|k: int| 0 <= k < 7 ==> d[k] <= 52,
        max_shell <= 13,
    ensures
        r == even_valid(g@, max_shell as int),
{
    let w = d[0] + d[1] + d[2] + d[3];
    let free_n = d[4] + d[5] + d[6];
    let norm = 196 * d[0] + 100 * d[1] + 36 * d[2] + 4 * d[3] + 144 * d[4] + 64 * d[5] + 16
        * d[6];
    let s0 = 14 * d[0] + 10 * d[1] + 6 * d[2] + 2 * d[3] + 12 * d[4] + 8 * d[5] + 4 * d[6];
    assert(d[0] as int == g@[0] && d[1] as int == g@[1] && d[2] as int == g@[2] && d[3] as int
        == g@[3] && d[4] as int == g@[4] && d[5] as int == g@[5] && d[6] as int == g@[6]);
    w <= 24 && gamma(w) != 0 && w + free_n <= 24 && norm % 16 == 0 && 2 <= norm / 16 && norm / 16
        <= max_shell && (w != 0 || (s0 / 4) % 2 == 0)
}

fn odd_valid_exec(d: &[u32; 6], max_shell: u32, g: Ghost<Seq<int>>) -> (r: bool)
    requires
        g@ == d@.map_values(|x: u32| x as int),
        forall|k: int| 0 <= k < 6 ==> d[k] <= 24,
        max_shell <= 13,
    ensures
        r == odd_valid(g@, max_shell as int),
{
    assert(d[0] as int == g@[0] && d[1] as int == g@[1] && d[2] as int == g@[2] && d[3] as int
        == g@[3] && d[4] as int == g@[4] && d[5] as int == g@[5]);
    let heavy = d[0] + d[1] + d[2] + d[3] + d[4] + d[5];
    if heavy > 24 {
        return false;
    }
    let n1 = 24 - heavy;
    let norm = 169 * d[0] + 121 * d[1] + 81 * d[2] + 49 * d[3] + 25 * d[4] + 9 * d[5] + n1;
    norm % 16 == 0 && 2 <= norm / 16 && norm / 16 <= max_shell && (n1 + d[3] + d[2]) % 2 == 1
}

/// Enumerate every class of shells `2 ..= max_shell` (shell 1 has none).
pub fn enumerate_classes(max_shell: u32) -> (cs: ClassSet)
    requires
        max_shell <= MAX_SHELL,
    ensures
        cs.even.len() == even_list(EVEN_BOX as int, max_shell as int).len(),
        forall|i: int|
            0 <= i < cs.even.len() ==> even_class_is(
                #[trigger] cs.even@[i],
                even_list(EVEN_BOX as int, max_shell as int)[i],
            ) && cs.even@[i].wf(),
        cs.odd.len() == odd_list(ODD_BOX as int, max_shell as int).len(),
        forall|i: int|
            0 <= i < cs.odd.len() ==> odd_class_is(
                #[trigger] cs.odd@[i],
                odd_list(ODD_BOX as int, max_shell as int)[i],
            ) && cs.odd@[i].wf(),
{
    let ghost ms = max_shell as int;
    let mut even: Vec<EvenClass> = Vec::new();
    let mut t: u32 = 0;
    while t < EVEN_BOX
        invariant
            t <= EVEN_BOX,
            max_shell <= 13,
            ms == max_shell as int,
            even.len() == even_list(t as int, ms).len(),
            forall|i: int|
                0 <= i < even.len() ==> even_class_is(#[trigger] even@[i], even_list(t as int, ms)[i])
                    && even@[i].wf(),
        decreases EVEN_BOX - t,
    {
        let d = even_digits_exec(t);
        let ghost g = even_digits(t as int);
        if even_valid_exec(&d, max_shell, Ghost(g)) {
            proof {
                assert(even_valid(g, 13));
            }
            let c = even_class_from(d, Ghost(g));
            even.push(c);
        }
        proof {
            assert(even_list(t as int + 1, ms) == if even_valid(g, ms) {
                even_list(t as int, ms).push(g)
            } else {
                even_list(t as int, ms)
            });
        }
        t = t + 1;
    }
    let mut odd: Vec<OddClass> = Vec::new();
    let mut t: u32 = 0;
    while t < ODD_BOX
        invariant
            t <= ODD_BOX,
            max_shell <= 13,
            ms == max_shell as int,
            odd.len() == odd_list(t as int, ms).len(),
            forall|i: int|
                0 <= i < odd.len() ==> odd_class_is(#[trigger] odd@[i], odd_list(t as int, ms)[i])
                    && odd@[i].wf(),
        decreases ODD_BOX - t,
    {
        let d = odd_digits_exec(t);
        let ghost g = odd_digits(t as int);
        if odd_valid_exec(&d, max_shell, Ghost(g)) {
            proof {
                assert(odd_valid(g, 13));
            }
            let c = odd_class_from(d, Ghost(g));
            odd.push(c);
        }
        proof {
            assert(odd_list(t as int + 1, ms) == if odd_valid(g, ms) {
                odd_list(t as int, ms).push(g)
            } else {
                odd_list(t as int, ms)
            });
        }
        t = t + 1;
    }
    ClassSet { even, odd }
}

/// `Σ card` over the even classes of shell `m` among `s`.
pub open spec fn even_shell_sum(s: Seq<EvenClass>, m: int) -> int
    decreases s.len(),
{
    if s.len() == 0 {
        0
    } else {
        even_shell_sum(s.drop_last(), m) + if s.last().shell == m {
            s.last().card()
        } else {
            0
        }
    }
}

/// `Σ card` over the odd classes of shell `m` among `s`.
pub open spec fn odd_shell_sum(s: Seq<OddClass>, m: int) -> int
    decreases s.len(),
{
    if s.len() == 0 {
        0
    } else {
        odd_shell_sum(s.drop_last(), m) + if s.last().shell == m {
            s.last().card()
        } else {
            0
        }
    }
}

pub(crate) proof fn lemma_even_card_nonneg(c: EvenClass)
    requires
        c.wf(),
    ensures
        c.card() >= 0,
{
    crate::combin::lemma_mult_pos(u8_counts(pair_counts(c.word_vals@)));
    crate::combin::lemma_mult_pos(
        u8_counts(pair_counts(c.free_vals@).push((24 - c.w - c.free_n()) as u8)),
    );
    crate::combin::lemma_pow_nonneg(2, c.w - 1);
    crate::combin::lemma_pow_nonneg(2, c.free_n());
    let g = weight_distribution(c.w as int);
    let sw = if c.w == 0 {
        1
    } else {
        pow2(c.w - 1)
    };
    let sf = pow2(c.free_n());
    let a = mult(u8_counts(pair_counts(c.word_vals@)));
    let b = mult(u8_counts(pair_counts(c.free_vals@).push((24 - c.w - c.free_n()) as u8)));
    assert(g * sw * sf * a * b >= 0) by (nonlinear_arith)
        requires
            g >= 0,
            sw >= 0,
            sf >= 0,
            a >= 0,
            b >= 0,
    ;
}

pub(crate) proof fn lemma_even_sum_bounds(s: Seq<EvenClass>, m: int)
    requires
        forall|i: int| 0 <= i < s.len() ==> (#[trigger] s[i]).wf(),
    ensures
        even_shell_sum(s, m) >= 0,
        forall|i: int| 0 <= i < s.len() && (#[trigger] s[i]).shell == m ==> s[i].card() <= even_shell_sum(s, m),
        forall|k: int| 0 <= k <= s.len() ==> even_shell_sum(#[trigger] s.take(k), m) <= even_shell_sum(s, m),
    decreases s.len(),
{
    if s.len() > 0 {
        let r = s.drop_last();
        lemma_even_sum_bounds(r, m);
        lemma_even_card_nonneg(s.last());
        assert forall|k: int| 0 <= k <= s.len() implies even_shell_sum(#[trigger] s.take(k), m) <= even_shell_sum(s, m) by {
            if k == s.len() {
                assert(s.take(k) =~= s);
            } else {
                assert(s.take(k) =~= r.take(k));
            }
        }
        assert forall|i: int| 0 <= i < s.len() && (#[trigger] s[i]).shell == m implies s[i].card() <= even_shell_sum(s, m) by {
            if i < r.len() {
                assert(r[i] == s[i]);
            }
        }
    }
}

pub(crate) proof fn lemma_odd_sum_bounds(s: Seq<OddClass>, m: int)
    requires
        forall|i: int| 0 <= i < s.len() ==> (#[trigger] s[i]).wf(),
    ensures
        odd_shell_sum(s, m) >= 0,
        forall|i: int| 0 <= i < s.len() && (#[trigger] s[i]).shell == m ==> s[i].card() <= odd_shell_sum(s, m),
        forall|k: int| 0 <= k <= s.len() ==> odd_shell_sum(#[trigger] s.take(k), m) <= odd_shell_sum(s, m),
    decreases s.len(),
{
    if s.len() > 0 {
        let r = s.drop_last();
        lemma_odd_sum_bounds(r, m);
        crate::combin::lemma_mult_pos(u8_counts(pair_counts(s.last().vals@)));
        assert forall|k: int| 0 <= k <= s.len() implies odd_shell_sum(#[trigger] s.take(k), m) <= odd_shell_sum(s, m) by {
            if k == s.len() {
                assert(s.take(k) =~= s);
            } else {
                assert(s.take(k) =~= r.take(k));
            }
        }
        assert forall|i: int| 0 <= i < s.len() && (#[trigger] s[i]).shell == m implies s[i].card() <= odd_shell_sum(s, m) by {
            if i < r.len() {
                assert(r[i] == s[i]);
            }
        }
    }
}

impl ClassSet {
    /// Every class is internally consistent.
    pub open spec fn wf(&self) -> bool {
        &&& forall|i: int| 0 <= i < self.even.len() ==> (#[trigger] self.even@[i]).wf()
        &&& forall|i: int| 0 <= i < self.odd.len() ==> (#[trigger] self.odd@[i]).wf()
    }

    /// Total point count of the classes of shell `m`.
    pub open spec fn shell_total(&self, m: int) -> int {
        even_shell_sum(self.even@, m) + odd_shell_sum(self.odd@, m)
    }

    /// Total point count of `Shell(m)` from the class cardinalities.
    pub fn shell_cardinality(&self, m: u32) -> (r: u64)
        requires
            self.wf(),
            self.shell_total(m as int) <= u64::MAX,
        ensures
            r == self.shell_total(m as int),
    {
        proof {
            lemma_even_sum_bounds(self.even@, m as int);
            lemma_odd_sum_bounds(self.odd@, m as int);
        }
        let mut a: u64 = 0;
        let mut i: usize = 0;
        while i < self.even.len()
            invariant
                i <= self.even.len(),
                self.wf(),
                a == even_shell_sum(self.even@.take(i as int), m as int),
                even_shell_sum(self.even@, m as int) + odd_shell_sum(self.odd@, m as int) <= u64::MAX,
                odd_shell_sum(self.odd@, m as int) >= 0,
                forall|k: int| 0 <= k <= self.even.len() ==> even_shell_sum(#[trigger] self.even@.take(k), m as int) <= even_shell_sum(self.even@, m as int),
                forall|j: int| 0 <= j < self.even.len() && (#[trigger] self.even@[j]).shell == m ==> self.even@[j].card() <= even_shell_sum(self.even@, m as int),
            decreases self.even.len() - i,
        {
            proof {
                assert(self.even@.take(i as int + 1).drop_last() =~= self.even@.take(i as int));
            }
            if self.even[i].shell == m {
                let c = self.even[i].cardinality();
                a = a + c;
            }
            i = i + 1;
        }
        proof {
            assert(self.even@.take(self.even.len() as int) =~= self.even@);
        }
        let mut b: u64 = 0;
        let mut i: usize = 0;
        while i < self.odd.len()
            invariant
                i <= self.odd.len(),
                self.wf(),
                b == odd_shell_sum(self.odd@.take(i as int), m as int),
                a == even_shell_sum(self.even@, m as int),
                a + odd_shell_sum(self.odd@, m as int) <= u64::MAX,
                a >= 0,
                forall|k: int| 0 <= k <= self.odd.len() ==> odd_shell_sum(#[trigger] self.odd@.take(k), m as int) <= odd_shell_sum(self.odd@, m as int),
                forall|j: int| 0 <= j < self.odd.len() && (#[trigger] self.odd@[j]).shell == m ==> self.odd@[j].card() <= odd_shell_sum(self.odd@, m as int),
            decreases self.odd.len() - i,
        {
            proof {
                assert(self.odd@.take(i as int + 1).drop_last() =~= self.odd@.take(i as int));
            }
            if self.odd[i].shell == m {
                let c = self.odd[i].cardinality();
                b = b + c;
            }
            i = i + 1;
        }
        proof {
            assert(self.odd@.take(self.odd.len() as int) =~= self.odd@);
        }
        a + b
    }
}

// ---------------------------------------------------------------------------
// Box positions and the class lists
// ---------------------------------------------------------------------------
/// One mixed-radix step: `(q·R + r) / R = q`, `(q·R + r) % R = r`.
proof fn lemma_mr_step(q: int, r: int, radix: int)
    requires
        radix > 0,
        0 <= r < radix,
        q >= 0,
    ensures
        (q * radix + r) / radix == q,
        (q * radix + r) % radix == r,
{
    vstd::arithmetic::div_mod::lemma_fundamental_div_mod_converse(q * radix + r, radix, q, r);
}

/// One mixed-radix step backwards: `t = (t / R)·R + t % R`.
proof fn lemma_mr_back(t: int, radix: int)
    requires
        radix > 0,
        t >= 0,
    ensures
        t == (t / radix) * radix + t % radix,
        0 <= t % radix < radix,
        t / radix >= 0,
{
    vstd::arithmetic::div_mod::lemma_fundamental_div_mod(t, radix);
    vstd::arithmetic::mul::lemma_mul_is_commutative(radix, t / radix);
    vstd::arithmetic::div_mod::lemma_mod_bound(t, radix);
    vstd::arithmetic::div_mod::lemma_div_pos_is_pos(t, radix);
}

/// A count vector inside the even box.
pub open spec fn even_in_box(d: Seq<int>) -> bool {
    &&& d.len() == 7
    &&& forall|k: int| 0 <= k < 7 ==> 0 <= #[trigger] d[k] < even_radix(k)
}

pub open spec fn odd_in_box(d: Seq<int>) -> bool {
    &&& d.len() == 6
    &&& forall|k: int| 0 <= k < 6 ==> 0 <= #[trigger] d[k] < odd_radix(k)
}

pub(crate) proof fn lemma_even_digits_pos(t: int)
    requires
        0 <= t < EVEN_BOX,
    ensures
        even_pos(even_digits(t)) == t,
        even_in_box(even_digits(t)),
{
    let t1 = t / 14;
    let t2 = t1 / 4;
    let t3 = t2 / 2;
    let t4 = t3 / 53;
    let t5 = t4 / 6;
    lemma_mr_back(t, 14);
    lemma_mr_back(t1, 4);
    lemma_mr_back(t2, 2);
    lemma_mr_back(t3, 53);
    lemma_mr_back(t4, 6);
    lemma_mr_back(t5, 3);
    vstd::arithmetic::div_mod::lemma_div_is_ordered(t, EVEN_BOX as int - 1, 14);
    vstd::arithmetic::div_mod::lemma_div_is_ordered(t1, 15263, 4);
    vstd::arithmetic::div_mod::lemma_div_is_ordered(t2, 3815, 2);
    vstd::arithmetic::div_mod::lemma_div_is_ordered(t3, 1907, 53);
    vstd::arithmetic::div_mod::lemma_div_is_ordered(t4, 35, 6);
    vstd::arithmetic::div_mod::lemma_div_is_ordered(t5, 5, 3);
    assert(t5 / 3 < 2);
    vstd::arithmetic::div_mod::lemma_small_mod((t5 / 3) as nat, 2);
    let d = even_digits(t);
    assert(d[0] == t5 / 3);
}

pub(crate) proof fn lemma_even_pos_digits(d: Seq<int>)
    requires
        even_in_box(d),
    ensures
        0 <= even_pos(d) < EVEN_BOX,
        even_digits(even_pos(d)) == d,
{
    let a5 = d[0] * 3 + d[1];
    let a4 = a5 * 6 + d[2];
    let a3 = a4 * 53 + d[3];
    let a2 = a3 * 2 + d[4];
    let a1 = a2 * 4 + d[5];
    let t = a1 * 14 + d[6];
    assert(0 <= d[0] < 2 && 0 <= d[1] < 3 && 0 <= d[2] < 6 && 0 <= d[3] < 53 && 0 <= d[4] < 2
        && 0 <= d[5] < 4 && 0 <= d[6] < 14) by {
        assert(even_radix(0) == 2 && even_radix(1) == 3 && even_radix(2) == 6);
        assert(d[0] < even_radix(0) && d[1] < even_radix(1) && d[2] < even_radix(2));
        assert(d[3] < even_radix(3) && d[4] < even_radix(4) && d[5] < even_radix(5) && d[6]
            < even_radix(6));
    }
    lemma_mr_step(a1, d[6], 14);
    lemma_mr_step(a2, d[5], 4);
    lemma_mr_step(a3, d[4], 2);
    lemma_mr_step(a4, d[3], 53);
    lemma_mr_step(a5, d[2], 6);
    lemma_mr_step(d[0], d[1], 3);
    vstd::arithmetic::div_mod::lemma_small_mod(d[0] as nat, 2);
    assert(t < EVEN_BOX) by (nonlinear_arith)
        requires
            t == a1 * 14 + d[6],
            a1 == a2 * 4 + d[5],
            a2 == a3 * 2 + d[4],
            a3 == a4 * 53 + d[3],
            a4 == a5 * 6 + d[2],
            a5 == d[0] * 3 + d[1],
            0 <= d[0] < 2 && 0 <= d[1] < 3 && 0 <= d[2] < 6 && 0 <= d[3] < 53 && 0 <= d[4] < 2
                && 0 <= d[5] < 4 && 0 <= d[6] < 14,
    ;
    assert(even_digits(t) =~= d);
}

pub(crate) proof fn lemma_odd_digits_pos(t: int)
    requires
        0 <= t < ODD_BOX,
    ensures
        odd_pos(odd_digits(t)) == t,
        odd_in_box(odd_digits(t)),
{
    let t1 = t / 25;
    let t2 = t1 / 9;
    let t3 = t2 / 5;
    let t4 = t3 / 3;
    lemma_mr_back(t, 25);
    lemma_mr_back(t1, 9);
    lemma_mr_back(t2, 5);
    lemma_mr_back(t3, 3);
    lemma_mr_back(t4, 2);
    vstd::arithmetic::div_mod::lemma_div_is_ordered(t, ODD_BOX as int - 1, 25);
    vstd::arithmetic::div_mod::lemma_div_is_ordered(t1, 539, 9);
    vstd::arithmetic::div_mod::lemma_div_is_ordered(t2, 59, 5);
    vstd::arithmetic::div_mod::lemma_div_is_ordered(t3, 11, 3);
    vstd::arithmetic::div_mod::lemma_div_is_ordered(t4, 3, 2);
    vstd::arithmetic::div_mod::lemma_small_mod((t4 / 2) as nat, 2);
    let d = odd_digits(t);
    assert(d[0] == t4 / 2);
}

pub(crate) proof fn lemma_odd_pos_digits(d: Seq<int>)
    requires
        odd_in_box(d),
    ensures
        0 <= odd_pos(d) < ODD_BOX,
        odd_digits(odd_pos(d)) == d,
{
    let a4 = d[0] * 2 + d[1];
    let a3 = a4 * 3 + d[2];
    let a2 = a3 * 5 + d[3];
    let a1 = a2 * 9 + d[4];
    let t = a1 * 25 + d[5];
    assert(0 <= d[0] < 2 && 0 <= d[1] < 2 && 0 <= d[2] < 3 && 0 <= d[3] < 5 && 0 <= d[4] < 9
        && 0 <= d[5] < 25) by {
        assert(d[0] < odd_radix(0) && d[1] < odd_radix(1) && d[2] < odd_radix(2));
        assert(d[3] < odd_radix(3) && d[4] < odd_radix(4) && d[5] < odd_radix(5));
    }
    lemma_mr_step(a1, d[5], 25);
    lemma_mr_step(a2, d[4], 9);
    lemma_mr_step(a3, d[3], 5);
    lemma_mr_step(a4, d[2], 3);
    lemma_mr_step(d[0], d[1], 2);
    vstd::arithmetic::div_mod::lemma_small_mod(d[0] as nat, 2);
    assert(t < ODD_BOX) by (nonlinear_arith)
        requires
            t == a1 * 25 + d[5],
            a1 == a2 * 9 + d[4],
            a2 == a3 * 5 + d[3],
            a3 == a4 * 3 + d[2],
            a4 == d[0] * 2 + d[1],
            0 <= d[0] < 2 && 0 <= d[1] < 2 && 0 <= d[2] < 3 && 0 <= d[3] < 5 && 0 <= d[4] < 9
                && 0 <= d[5] < 25,
    ;
    assert(odd_digits(t) =~= d);
}

/// A valid even count vector lies in the box.
pub(crate) proof fn lemma_even_valid_in_box(d: Seq<int>, ms: int)
    requires
        even_valid(d, ms),
        ms <= 13,
    ensures
        even_in_box(d),
{
    assert(0 <= d[0] && 0 <= d[1] && 0 <= d[2] && 0 <= d[3] && 0 <= d[4] && 0 <= d[5] && 0
        <= d[6]) by {
        assert(0 <= d[0] && 0 <= d[1] && 0 <= d[2]);
        assert(0 <= d[3] && 0 <= d[4] && 0 <= d[5] && 0 <= d[6]);
    }
    assert(even_norm(d) <= 16 * 13 + 15);
    assert forall|k: int| 0 <= k < 7 implies 0 <= #[trigger] d[k] < even_radix(k) by {
        if k == 0 {
        } else if k == 1 {
        } else if k == 2 {
        } else if k == 3 {
        } else if k == 4 {
        } else if k == 5 {
        } else {
        }
    }
}

pub(crate) proof fn lemma_odd_valid_in_box(d: Seq<int>, ms: int)
    requires
        odd_valid(d, ms),
        ms <= 13,
    ensures
        odd_in_box(d),
{
    assert(0 <= d[0] && 0 <= d[1] && 0 <= d[2] && 0 <= d[3] && 0 <= d[4] && 0 <= d[5]) by {
        assert(0 <= d[0] && 0 <= d[1] && 0 <= d[2]);
        assert(0 <= d[3] && 0 <= d[4] && 0 <= d[5]);
    }
    assert(odd_norm(d) <= 16 * 13 + 15);
    assert forall|k: int| 0 <= k < 6 implies 0 <= #[trigger] d[k] < odd_radix(k) by {
        if k == 0 {
        } else if k == 1 {
        } else if k == 2 {
        } else if k == 3 {
        } else if k == 4 {
        } else {
        }
    }
}

/// The even class list: its entries are valid, in strictly increasing box
/// order (so pairwise distinct), and every valid vector is listed.
pub proof fn lemma_even_list(t: int, ms: int)
    requires
        0 <= t <= EVEN_BOX,
        ms <= 13,
    ensures
        forall|i: int|
            0 <= i < even_list(t, ms).len() ==> even_valid(#[trigger] even_list(t, ms)[i], ms)
                && even_pos(even_list(t, ms)[i]) < t,
        forall|i: int, j: int|
            0 <= i < j < even_list(t, ms).len() ==> even_pos(#[trigger] even_list(t, ms)[i])
                < even_pos(#[trigger] even_list(t, ms)[j]),
        forall|d: Seq<int>|
            even_valid(d, ms) && even_pos(d) < t ==> #[trigger] even_list(t, ms).contains(d),
    decreases t,
{
    if t > 0 {
        lemma_even_list(t - 1, ms);
        let g = even_digits(t - 1);
        lemma_even_digits_pos(t - 1);
        let l0 = even_list(t - 1, ms);
        let l = even_list(t, ms);
        assert forall|d: Seq<int>| even_valid(d, ms) && even_pos(d) < t implies #[trigger] l.contains(d) by {
            lemma_even_valid_in_box(d, ms);
            lemma_even_pos_digits(d);
            if even_pos(d) < t - 1 {
                assert(l0.contains(d));
                let q = choose|q: int| 0 <= q < l0.len() && l0[q] == d;
                assert(l[q] == d);
            } else {
                assert(d == g);
                assert(l[l.len() - 1] == d);
            }
        }
    }
}

pub proof fn lemma_odd_list(t: int, ms: int)
    requires
        0 <= t <= ODD_BOX,
        ms <= 13,
    ensures
        forall|i: int|
            0 <= i < odd_list(t, ms).len() ==> odd_valid(#[trigger] odd_list(t, ms)[i], ms)
                && odd_pos(odd_list(t, ms)[i]) < t,
        forall|i: int, j: int|
            0 <= i < j < odd_list(t, ms).len() ==> odd_pos(#[trigger] odd_list(t, ms)[i])
                < odd_pos(#[trigger] odd_list(t, ms)[j]),
        forall|d: Seq<int>|
            odd_valid(d, ms) && odd_pos(d) < t ==> #[trigger] odd_list(t, ms).contains(d),
    decreases t,
{
    if t > 0 {
        lemma_odd_list(t - 1, ms);
        let g = odd_digits(t - 1);
        lemma_odd_digits_pos(t - 1);
        let l0 = odd_list(t - 1, ms);
        let l = odd_list(t, ms);
        assert forall|d: Seq<int>| odd_valid(d, ms) && odd_pos(d) < t implies #[trigger] l.contains(d) by {
            lemma_odd_valid_in_box(d, ms);
            lemma_odd_pos_digits(d);
            if odd_pos(d) < t - 1 {
                assert(l0.contains(d));
                let q = choose|q: int| 0 <= q < l0.len() && l0[q] == d;
                assert(l[q] == d);
            } else {
                assert(d == g);
                assert(l[l.len() - 1] == d);
            }
        }
    }
}

/// Even count vectors on a shell at most `a`.
pub open spec fn even_within(a: int) -> spec_fn(Seq<int>) -> bool {
    |d: Seq<int>| even_norm(d) / 16 <= a
}

/// Odd count vectors on a shell at most `a`.
pub open spec fn odd_within(a: int) -> spec_fn(Seq<int>) -> bool {
    |d: Seq<int>| odd_norm(d) / 16 <= a
}

/// A smaller shell bound lists the classes of the larger one whose shell is
/// within the smaller bound, in the same order (even classes).
pub proof fn lemma_even_list_mono(t: int, a: int, b: int)
    requires
        a <= b,
    ensures
        even_list(t, a) == even_list(t, b).filter(even_within(a)),
    decreases t,
{
    if t > 0 {
        lemma_even_list_mono(t - 1, a, b);
        let d = even_digits(t - 1);
        let l = even_list(t, b);
        if even_valid(d, b) {
            even_list(t - 1, b).lemma_filter_push(d, even_within(a));
            assert(l.filter(even_within(a)) == if even_within(a)(d) {
                even_list(t - 1, b).filter(even_within(a)).push(d)
            } else {
                even_list(t - 1, b).filter(even_within(a))
            });
        }
    }
}

/// A smaller shell bound lists the classes of the larger one whose shell is
/// within the smaller bound, in the same order (odd classes).
pub proof fn lemma_odd_list_mono(t: int, a: int, b: int)
    requires
        a <= b,
    ensures
        odd_list(t, a) == odd_list(t, b).filter(odd_within(a)),
    decreases t,
{
    if t > 0 {
        lemma_odd_list_mono(t - 1, a, b);
        let d = odd_digits(t - 1);
        let l = odd_list(t, b);
        if odd_valid(d, b) {
            odd_list(t - 1, b).lemma_filter_push(d, odd_within(a));
            assert(l.filter(odd_within(a)) == if odd_within(a)(d) {
                odd_list(t - 1, b).filter(odd_within(a)).push(d)
            } else {
                odd_list(t - 1, b).filter(odd_within(a))
            });
        }
    }
}

/// The counts of `(value, count)` pairs.
pub open spec fn seconds(s: Seq<(int, int)>) -> Seq<int> {
    s.map_values(|p: (int, int)| p.1)
}

proof fn lemma_total_append(a: Seq<int>, b: Seq<int>)
    ensures
        total(a + b) == total(a) + total(b),
    decreases a.len(),
{
    if a.len() > 0 {
        lemma_total_append(a.drop_first(), b);
        assert((a + b).drop_first() =~= a.drop_first() + b);
    } else {
        assert(a + b =~= b);
    }
}

/// A kind that occurs zero times does not change the multinomial.
proof fn lemma_mult_zero_at(c: Seq<int>, j: int)
    requires
        nonneg(c),
        0 <= j < c.len(),
        c[j] == 0,
    ensures
        mult(c) == mult(c.remove(j)),
        total(c) == total(c.remove(j)),
    decreases j,
{
    crate::combin::lemma_total_nonneg(c);
    if j == 0 {
        assert(c.remove(0) =~= c.drop_first());
        assert(binom(total(c), 0) == 1);
    } else {
        let d = c.drop_first();
        lemma_mult_zero_at(d, j - 1);
        assert(c.remove(j).drop_first() =~= d.remove(j - 1));
        assert(c.remove(j)[0] == c[0]);
    }
}

/// Dropping the pairs with a zero count keeps the multinomial of the
/// counts, whatever follows them.
proof fn lemma_nz_mult(s: Seq<(int, int)>, u: Seq<int>)
    requires
        forall|i: int| 0 <= i < s.len() ==> 0 <= (#[trigger] s[i]).1 < 256,
        nonneg(u),
    ensures
        mult(u8_counts(pair_counts(nz_pairs(s))) + u) == mult(seconds(s) + u),
    decreases s.len(),
{
    if s.len() > 0 {
        let r = s.drop_last();
        let p = s.last();
        let f = u8_counts(pair_counts(nz_pairs(r)));
        assert(seconds(s) =~= seconds(r).push(p.1));
        if p.1 > 0 {
            lemma_nz_mult(r, seq![p.1] + u);
            assert(u8_counts(pair_counts(nz_pairs(s))) =~= f.push(p.1));
            assert(f.push(p.1) + u =~= f + (seq![p.1] + u));
            assert(seconds(r).push(p.1) + u =~= seconds(r) + (seq![p.1] + u));
        } else {
            lemma_nz_mult(r, u);
            let g = seconds(r).push(0) + u;
            assert(nonneg(g));
            lemma_mult_zero_at(g, seconds(r).len() as int);
            assert(g.remove(seconds(r).len() as int) =~= seconds(r) + u);
        }
    } else {
        assert(u8_counts(pair_counts(nz_pairs(s))) + u =~= u);
        assert(seconds(s) + u =~= u);
    }
}

impl EvenClass {
    /// The cardinality of the class built from `d`, in terms of `d`.
    pub proof fn lemma_card_of(self, d: Seq<int>)
        requires
            even_class_is(self, d),
            even_valid(d, 13),
        ensures
            self.card() == weight_distribution(even_w(d)) * (if even_w(d) == 0 {
                1
            } else {
                pow2(even_w(d) - 1)
            }) * pow2(even_free_n(d)) * mult(seq![d[0], d[1], d[2], d[3]]) * mult(
                seq![d[4], d[5], d[6], 24 - even_w(d) - even_free_n(d)],
            ),
    {
        let sw = seq![(14int, d[0]), (10int, d[1]), (6int, d[2]), (2int, d[3])];
        let sf = seq![(12int, d[4]), (8int, d[5]), (4int, d[6])];
        assert(even_norm(d) <= 208);
        lemma_nz_mult(sw, Seq::empty());
        assert(seconds(sw) + Seq::<int>::empty() =~= seq![d[0], d[1], d[2], d[3]]);
        assert(u8_counts(pair_counts(nz_pairs(sw))) + Seq::<int>::empty() =~= u8_counts(
            pair_counts(nz_pairs(sw)),
        ));
        lemma_pair_total_nz(sf);
        reveal_with_fuel(sum_second, 4);
        assert(sf.drop_last().drop_last().drop_last() =~= Seq::<(int, int)>::empty());
        let n0 = 24 - even_w(d) - even_free_n(d);
        assert(self.free_n() == even_free_n(d));
        lemma_nz_mult(sf, seq![n0]);
        assert(seconds(sf) + seq![n0] =~= seq![d[4], d[5], d[6], n0]);
        assert(u8_counts(pair_counts(self.free_vals@).push(n0 as u8)) =~= u8_counts(
            pair_counts(nz_pairs(sf)),
        ) + seq![n0]);
    }
}

impl OddClass {
    /// The cardinality of the class built from `d`, in terms of `d`.
    pub proof fn lemma_card_of(self, d: Seq<int>)
        requires
            odd_class_is(self, d),
            odd_valid(d, 13),
        ensures
            self.card() == 4096 * mult(seq![d[0], d[1], d[2], d[3], d[4], d[5], odd_n1(d)]),
    {
        let so = seq![(13int, d[0]), (11int, d[1]), (9int, d[2]), (7int, d[3]), (5int, d[4]), (3int, d[5]), (1int, odd_n1(d))];
        lemma_nz_mult(so, Seq::empty());
        assert(seconds(so) + Seq::<int>::empty() =~= seq![d[0], d[1], d[2], d[3], d[4], d[5], odd_n1(d)]);
        assert(u8_counts(pair_counts(nz_pairs(so))) + Seq::<int>::empty() =~= u8_counts(
            pair_counts(nz_pairs(so)),
        ));
    }
}

// ---------------------------------------------------------------------------
// The properties of each enumerated class
// ---------------------------------------------------------------------------
/// `Σ v²·n` over `(value, count)` pairs.
pub open spec fn sq_sum(s: Seq<(u8, u8)>) -> int
    decreases s.len(),
{
    if s.len() == 0 {
        0
    } else {
        sq_sum(s.drop_last()) + s.last().0 * s.last().0 * s.last().1
    }
}

/// `Σ v·n` over `(value, count)` pairs.
pub open spec fn lin_sum(s: Seq<(u8, u8)>) -> int
    decreases s.len(),
{
    if s.len() == 0 {
        0
    } else {
        lin_sum(s.drop_last()) + s.last().0 * s.last().1
    }
}

/// The number of coordinates whose value is `≡ ±1 (mod 8)`.
pub open spec fn pm1_count(s: Seq<(u8, u8)>) -> int
    decreases s.len(),
{
    if s.len() == 0 {
        0
    } else {
        pm1_count(s.drop_last()) + (if s.last().0 % 8 == 1 || s.last().0 % 8 == 7 {
            s.last().1 as int
        } else {
            0
        })
    }
}

/// Values strictly descending.
pub open spec fn descending_values(s: Seq<(u8, u8)>) -> bool {
    forall|a: int, b: int| 0 <= a < b < s.len() ==> s[a].0 > s[b].0
}

spec fn isq_sum(s: Seq<(int, int)>) -> int
    decreases s.len(),
{
    if s.len() == 0 {
        0
    } else {
        isq_sum(s.drop_last()) + s.last().0 * s.last().0 * s.last().1
    }
}

spec fn ilin_sum(s: Seq<(int, int)>) -> int
    decreases s.len(),
{
    if s.len() == 0 {
        0
    } else {
        ilin_sum(s.drop_last()) + s.last().0 * s.last().1
    }
}

spec fn ipm1_count(s: Seq<(int, int)>) -> int
    decreases s.len(),
{
    if s.len() == 0 {
        0
    } else {
        ipm1_count(s.drop_last()) + (if s.last().0 % 8 == 1 || s.last().0 % 8 == 7 {
            s.last().1
        } else {
            0
        })
    }
}

proof fn lemma_nz_pairs(s: Seq<(int, int)>, p: spec_fn(int) -> bool)
    requires
        forall|i: int| 0 <= i < s.len() ==> 0 <= (#[trigger] s[i]).0 < 256 && 0 <= s[i].1 < 256,
        forall|i: int| 0 <= i < s.len() ==> p((#[trigger] s[i]).0),
    ensures
        sq_sum(nz_pairs(s)) == isq_sum(s),
        lin_sum(nz_pairs(s)) == ilin_sum(s),
        pm1_count(nz_pairs(s)) == ipm1_count(s),
        forall|k: int|
            0 <= k < nz_pairs(s).len() ==> (#[trigger] nz_pairs(s)[k]).1 > 0 && p(
                nz_pairs(s)[k].0 as int,
            ),
        (forall|a: int, b: int| 0 <= a < b < s.len() ==> s[a].0 > s[b].0) ==> descending_values(
            nz_pairs(s),
        ),
        (forall|a: int, b: int| 0 <= a < b < s.len() ==> s[a].0 > s[b].0) ==> forall|k: int|
            0 <= k < nz_pairs(s).len() ==> s[s.len() - 1].0 <= (#[trigger] nz_pairs(s)[k]).0,
    decreases s.len(),
{
    if s.len() > 0 {
        let t = s.drop_last();
        lemma_nz_pairs(t, p);
        let rest = nz_pairs(t);
        let (v, n) = s.last();
        assert(s[s.len() - 1] == s.last());
        assert((v as u8) as int == v && (n as u8) as int == n);
        if n == 0 {
            assert(v * v * n == 0 && v * n == 0) by (nonlinear_arith)
                requires
                    n == 0,
            ;
        }
        if n > 0 {
            let x = (v as u8, n as u8);
            assert(rest.push(x).drop_last() =~= rest);
            assert(rest.push(x).last() == x);
            if forall|a: int, b: int| 0 <= a < b < s.len() ==> s[a].0 > s[b].0 {
                assert forall|k: int| 0 <= k < rest.len() implies v < (#[trigger] rest[k]).0 by {
                    assert(t[t.len() - 1].0 <= rest[k].0);
                    assert(s[t.len() - 1].0 > s[s.len() - 1].0);
                }
            }
        } else {
            if forall|a: int, b: int| 0 <= a < b < s.len() ==> s[a].0 > s[b].0 {
                assert forall|k: int| 0 <= k < rest.len() implies s[s.len() - 1].0 <= (
                #[trigger] rest[k]).0 by {
                    assert(t[t.len() - 1].0 <= rest[k].0);
                    assert(s[t.len() - 1].0 > s[s.len() - 1].0);
                }
            }
        }
    }
}

/// What every even class of the enumeration satisfies, stated over its
/// fields: its shell, its norm `Σ v²·n = 16·shell`, values strictly
/// descending with positive counts, word values `≡ 2 (mod 4)`, free values
/// positive and `≡ 0 (mod 4)`, `w` a Golay weight equal to the word count,
/// at most 24 non-zero coordinates, and the sign parity `p_req = (S/4) mod 2`
/// (`S` the sum of all values), zero when `w = 0`.
pub open spec fn even_class_laws(c: EvenClass, ms: int) -> bool {
    &&& 2 <= c.shell <= ms
    &&& sq_sum(c.word_vals@) + sq_sum(c.free_vals@) == 16 * c.shell
    &&& descending_values(c.word_vals@)
    &&& descending_values(c.free_vals@)
    &&& forall|k: int|
        0 <= k < c.word_vals@.len() ==> (#[trigger] c.word_vals@[k]).1 > 0 && c.word_vals@[k].0 % 4
            == 2
    &&& forall|k: int|
        0 <= k < c.free_vals@.len() ==> (#[trigger] c.free_vals@[k]).1 > 0 && c.free_vals@[k].0 % 4
            == 0 && c.free_vals@[k].0 > 0
    &&& c.w == pair_total(c.word_vals@)
    &&& is_code_weight(c.w as int)
    &&& c.w + pair_total(c.free_vals@) <= 24
    &&& c.p_req == ((lin_sum(c.word_vals@) + lin_sum(c.free_vals@)) / 4) % 2
    &&& (c.w == 0 ==> c.p_req == 0)
}

/// What every odd class of the enumeration satisfies: its shell, its norm,
/// values odd and strictly descending with positive counts summing to 24, and
/// an odd number of coordinates `≡ ±1 (mod 8)` (`n₁ + n₇ + n₉` odd).
pub open spec fn odd_class_laws(c: OddClass, ms: int) -> bool {
    &&& 2 <= c.shell <= ms
    &&& sq_sum(c.vals@) == 16 * c.shell
    &&& descending_values(c.vals@)
    &&& forall|k: int|
        0 <= k < c.vals@.len() ==> (#[trigger] c.vals@[k]).1 > 0 && c.vals@[k].0 % 2 == 1
    &&& pair_total(c.vals@) == 24
    &&& pm1_count(c.vals@) % 2 == 1
}

proof fn lemma_sums_push(s: Seq<(int, int)>, v: int, n: int)
    ensures
        isq_sum(s.push((v, n))) == isq_sum(s) + v * v * n,
        ilin_sum(s.push((v, n))) == ilin_sum(s) + v * n,
        ipm1_count(s.push((v, n))) == ipm1_count(s) + (if v % 8 == 1 || v % 8 == 7 {
            n
        } else {
            0
        }),
{
    assert(s.push((v, n)).drop_last() =~= s);
}

proof fn lemma_even_class_laws(c: EvenClass, d: Seq<int>, ms: int)
    requires
        even_valid(d, ms),
        even_class_is(c, d),
        c.wf(),
    ensures
        even_class_laws(c, ms),
{
    let e = Seq::<(int, int)>::empty();
    let ws = seq![(14int, d[0]), (10int, d[1]), (6int, d[2]), (2int, d[3])];
    let fs = seq![(12int, d[4]), (8int, d[5]), (4int, d[6])];
    assert(0 <= d[0] && 0 <= d[1] && 0 <= d[2] && 0 <= d[3]);
    assert(0 <= d[4] && 0 <= d[5] && 0 <= d[6]);
    assert(isq_sum(ws) == 196 * d[0] + 100 * d[1] + 36 * d[2] + 4 * d[3] && ilin_sum(ws) == 14
        * d[0] + 10 * d[1] + 6 * d[2] + 2 * d[3]) by {
        let w1 = e.push((14int, d[0]));
        let w2 = w1.push((10int, d[1]));
        let w3 = w2.push((6int, d[2]));
        assert(ws =~= w3.push((2int, d[3])));
        lemma_sums_push(e, 14, d[0]);
        lemma_sums_push(w1, 10, d[1]);
        lemma_sums_push(w2, 6, d[2]);
        lemma_sums_push(w3, 2, d[3]);
        assert(isq_sum(e) == 0 && ilin_sum(e) == 0);
    }
    assert(isq_sum(fs) == 144 * d[4] + 64 * d[5] + 16 * d[6] && ilin_sum(fs) == 12 * d[4] + 8
        * d[5] + 4 * d[6]) by {
        let f1 = e.push((12int, d[4]));
        let f2 = f1.push((8int, d[5]));
        assert(fs =~= f2.push((4int, d[6])));
        lemma_sums_push(e, 12, d[4]);
        lemma_sums_push(f1, 8, d[5]);
        lemma_sums_push(f2, 4, d[6]);
        assert(isq_sum(e) == 0 && ilin_sum(e) == 0);
    }
    lemma_nz_pairs(ws, |v: int| v % 4 == 2);
    lemma_nz_pairs(fs, |v: int| v % 4 == 0 && v > 0);
}

proof fn lemma_odd_class_laws(c: OddClass, d: Seq<int>, ms: int)
    requires
        odd_valid(d, ms),
        odd_class_is(c, d),
        c.wf(),
    ensures
        odd_class_laws(c, ms),
{
    let s = seq![
        (13int, d[0]),
        (11int, d[1]),
        (9int, d[2]),
        (7int, d[3]),
        (5int, d[4]),
        (3int, d[5]),
        (1int, odd_n1(d)),
    ];
    assert(0 <= d[0] && 0 <= d[1] && 0 <= d[2] && 0 <= d[3] && 0 <= d[4] && 0 <= d[5]);
    lemma_nz_pairs(s, |v: int| v % 2 == 1);
    let e = Seq::<(int, int)>::empty();
    let s1 = e.push((13int, d[0]));
    let s2 = s1.push((11int, d[1]));
    let s3 = s2.push((9int, d[2]));
    let s4 = s3.push((7int, d[3]));
    let s5 = s4.push((5int, d[4]));
    let s6 = s5.push((3int, d[5]));
    assert(s =~= s6.push((1int, odd_n1(d))));
    lemma_sums_push(e, 13, d[0]);
    lemma_sums_push(s1, 11, d[1]);
    lemma_sums_push(s2, 9, d[2]);
    lemma_sums_push(s3, 7, d[3]);
    lemma_sums_push(s4, 5, d[4]);
    lemma_sums_push(s5, 3, d[5]);
    lemma_sums_push(s6, 1, odd_n1(d));
    assert(isq_sum(e) == 0 && ipm1_count(e) == 0);
    assert(isq_sum(s) == odd_norm(d));
    assert(ipm1_count(s) == odd_n1(d) + d[3] + d[2]);
}

/// Every class of the enumeration of the shells `2 ..= ms` has the properties
/// of [`even_class_laws`] and [`odd_class_laws`].
pub proof fn lemma_enumerated_classes(cs: ClassSet, ms: int)
    requires
        ms <= 13,
        cs.even.len() == even_list(EVEN_BOX as int, ms).len(),
        forall|i: int|
            0 <= i < cs.even.len() ==> even_class_is(
                #[trigger] cs.even@[i],
                even_list(EVEN_BOX as int, ms)[i],
            ) && cs.even@[i].wf(),
        cs.odd.len() == odd_list(ODD_BOX as int, ms).len(),
        forall|i: int|
            0 <= i < cs.odd.len() ==> odd_class_is(
                #[trigger] cs.odd@[i],
                odd_list(ODD_BOX as int, ms)[i],
            ) && cs.odd@[i].wf(),
    ensures
        forall|i: int| 0 <= i < cs.even.len() ==> even_class_laws(#[trigger] cs.even@[i], ms),
        forall|i: int| 0 <= i < cs.odd.len() ==> odd_class_laws(#[trigger] cs.odd@[i], ms),
{
    lemma_even_list(EVEN_BOX as int, ms);
    lemma_odd_list(ODD_BOX as int, ms);
    assert forall|i: int| 0 <= i < cs.even.len() implies even_class_laws(#[trigger] cs.even@[i], ms) by {
        lemma_even_class_laws(cs.even@[i], even_list(EVEN_BOX as int, ms)[i], ms);
    }
    assert forall|i: int| 0 <= i < cs.odd.len() implies odd_class_laws(#[trigger] cs.odd@[i], ms) by {
        lemma_odd_class_laws(cs.odd@[i], odd_list(ODD_BOX as int, ms)[i], ms);
    }
}

// ---------------------------------------------------------------------------
// Class tables for the per-class searches
// ---------------------------------------------------------------------------
/// The values of `(value, count)` pairs written out, each `count` times.
pub open spec fn expansion(s: Seq<(u8, u8)>) -> Seq<u8>
    decreases s.len(),
{
    if s.len() == 0 {
        Seq::empty()
    } else {
        expansion(s.drop_last()) + Seq::new(s.last().1 as nat, |q: int| s.last().0)
    }
}

proof fn lemma_expansion_take(s: Seq<(u8, u8)>, i: int)
    requires
        0 <= i < s.len(),
    ensures
        expansion(s.take(i + 1)) == expansion(s.take(i)) + Seq::new(s[i].1 as nat, |q: int| s[i].0),
        expansion(s.take(i + 1)).len() == expansion(s.take(i)).len() + s[i].1,
{
    assert(s.take(i + 1).drop_last() =~= s.take(i));
    assert(s.take(i + 1).last() == s[i]);
}

/// Writes out the values of the pairs, in order.
pub fn expand(pairs: &Vec<(u8, u8)>) -> (out: Vec<u8>)
    ensures
        out@ == expansion(pairs@),
{
    let mut out: Vec<u8> = Vec::new();
    let mut i: usize = 0;
    proof {
        assert(pairs@.take(0) =~= Seq::<(u8, u8)>::empty());
    }
    while i < pairs.len()
        invariant
            i <= pairs.len(),
            out@ == expansion(pairs@.take(i as int)),
        decreases pairs.len() - i,
    {
        let (v, n) = pairs[i];
        let ghost base = out@;
        let mut j: u8 = 0;
        proof {
            assert(base + Seq::new(0, |q: int| v) =~= base);
        }
        while j < n
            invariant
                j <= n,
                out@ == base + Seq::new(j as nat, |q: int| v),
            decreases n - j,
        {
            out.push(v);
            proof {
                assert(base + Seq::new((j + 1) as nat, |q: int| v) =~= (base + Seq::new(
                    j as nat,
                    |q: int| v,
                )).push(v));
            }
            j = j + 1;
        }
        proof {
            lemma_expansion_take(pairs@, i as int);
        }
        i = i + 1;
    }
    proof {
        assert(pairs@.take(pairs.len() as int) =~= pairs@);
    }
    out
}

/// For each pair, its value and the first and last positions of its copies
/// in the expansion.
pub fn kind_ranges(pairs: &Vec<(u8, u8)>) -> (r: Vec<(u8, usize, usize)>)
    requires
        pairs.len() <= 0x100_0000,
        forall|k: int| 0 <= k < pairs.len() ==> (#[trigger] pairs@[k]).1 >= 1,
    ensures
        r.len() == pairs.len(),
        forall|k: int|
            0 <= k < pairs.len() ==> #[trigger] r@[k] == (
                pairs@[k].0,
                expansion(pairs@.take(k)).len() as usize,
                (expansion(pairs@.take(k + 1)).len() - 1) as usize,
            ),
{
    let mut r: Vec<(u8, usize, usize)> = Vec::new();
    let mut start: usize = 0;
    let mut i: usize = 0;
    proof {
        assert(pairs@.take(0) =~= Seq::<(u8, u8)>::empty());
    }
    while i < pairs.len()
        invariant
            i <= pairs.len() <= 0x100_0000,
            forall|k: int| 0 <= k < pairs.len() ==> (#[trigger] pairs@[k]).1 >= 1,
            r.len() == i,
            start == expansion(pairs@.take(i as int)).len(),
            start <= 255 * i,
            forall|k: int|
                0 <= k < i ==> #[trigger] r@[k] == (
                    pairs@[k].0,
                    expansion(pairs@.take(k)).len() as usize,
                    (expansion(pairs@.take(k + 1)).len() - 1) as usize,
                ),
        decreases pairs.len() - i,
    {
        let (v, n) = pairs[i];
        proof {
            lemma_expansion_take(pairs@, i as int);
            assert(pairs@[i as int].1 >= 1);
        }
        let next = start + n as usize;
        r.push((v, start, next - 1));
        start = next;
        i = i + 1;
    }
    r
}

/// The search contribution of an odd value: `+v` when `v ≡ 3 (mod 4)`,
/// `−v` otherwise.
pub open spec fn contribution(v: u8) -> i32 {
    if v % 4 == 3 {
        v as i32
    } else {
        (-(v as int)) as i32
    }
}

/// The contribution of an odd value is the signed value that a point of the
/// odd coset carries on the codeword support: it is `≡ 3 (mod 4)` and has
/// absolute value `v`.
pub proof fn lemma_contribution_on_support(v: u8)
    requires
        v % 2 == 1,
    ensures
        (contribution(v) as int) % 4 == 3,
        contribution(v) as int == v as int || contribution(v) as int == -(v as int),
{
}

/// The contributions of the expanded values of an odd class, in order: for
/// each odd value `v`, the one of `±v` that is `≡ 3 (mod 4)`.
pub fn contributions(vals: &Vec<(u8, u8)>) -> (a: Vec<i32>)
    ensures
        a@ == expansion(vals@).map_values(|v: u8| contribution(v)),
        a.len() == expansion(vals@).len(),
        forall|k: int|
            0 <= k < a.len() && #[trigger] expansion(vals@)[k] % 2 == 1 ==> (a@[k] as int) % 4 == 3
                && (a@[k] as int == expansion(vals@)[k] as int || a@[k] as int == -(
            expansion(vals@)[k] as int)),
{
    let e = expand(vals);
    let mut a: Vec<i32> = Vec::new();
    let mut i: usize = 0;
    while i < e.len()
        invariant
            i <= e.len(),
            a@ == e@.take(i as int).map_values(|v: u8| contribution(v)),
        decreases e.len() - i,
    {
        let v = e[i];
        let c: i32 = if v % 4 == 3 {
            v as i32
        } else {
            -(v as i32)
        };
        a.push(c);
        proof {
            assert(e@.take(i as int + 1).map_values(|v: u8| contribution(v)) =~= e@.take(
                i as int,
            ).map_values(|v: u8| contribution(v)).push(c));
        }
        i = i + 1;
    }
    proof {
        assert(e@.take(e.len() as int) =~= e@);
        assert forall|k: int|
            0 <= k < a.len() && #[trigger] expansion(vals@)[k] % 2 == 1 implies (a@[k] as int) % 4
            == 3 && (a@[k] as int == expansion(vals@)[k] as int || a@[k] as int == -(
        expansion(vals@)[k] as int)) by {
            lemma_contribution_on_support(expansion(vals@)[k]);
        }
    }
    a
}

/// Whether a sequence is in ascending order.
pub open spec fn ascending(s: Seq<i32>) -> bool {
    forall|a: int, b: int| 0 <= a < b < s.len() ==> s[a] <= s[b]
}

proof fn lemma_swap_multiset(s: Seq<i32>, j: int)
    requires
        0 < j < s.len(),
    ensures
        s.update(j - 1, s[j]).update(j, s[j - 1]).to_multiset() =~= s.to_multiset(),
{
    broadcast use vstd::seq_lib::group_to_multiset_ensures;
    broadcast use vstd::multiset::group_multiset_axioms;

    let s1 = s.update(j - 1, s[j]);
    assert(s1[j] == s[j]);
    assert(s1.to_multiset() == s.to_multiset().insert(s[j]).remove(s[j - 1]));
    assert(s1.update(j, s[j - 1]).to_multiset() == s1.to_multiset().insert(s[j - 1]).remove(
        s[j],
    ));
}

/// Sorts a vector ascending in place (insertion sort by adjacent swaps).
pub fn sort_ascending(v: &mut Vec<i32>)
    ensures
        final(v).len() == old(v).len(),
        ascending(final(v)@),
        final(v)@.to_multiset() == old(v)@.to_multiset(),
{
    let n = v.len();
    if n == 0 {
        proof {
            assert(old(v)@ =~= v@);
        }
        return ;
    }
    let mut i: usize = 1;
    while i < n
        invariant
            1 <= i <= n,
            v.len() == n,
            forall|a: int, b: int| 0 <= a < b < i ==> v@[a] <= v@[b],
            v@.to_multiset() == old(v)@.to_multiset(),
        decreases n - i,
    {
        let mut j: usize = i;
        while j > 0 && v[j - 1] > v[j]
            invariant
                0 <= j <= i < n,
                v.len() == n,
                forall|a: int, b: int| 0 <= a < b <= i && a != j && b != j ==> v@[a] <= v@[b],
                forall|b: int| j < b <= i ==> v@[j as int] < v@[b],
                v@.to_multiset() == old(v)@.to_multiset(),
            decreases j,
        {
            let x = v[j - 1];
            let y = v[j];
            proof {
                lemma_swap_multiset(v@, j as int);
            }
            v.set(j - 1, y);
            v.set(j, x);
            j = j - 1;
        }
        proof {
            assert forall|a: int, b: int| 0 <= a < b < i + 1 implies v@[a] <= v@[b] by {
                if b == j && a < j {
                    assert(v@[a] <= v@[j - 1]);
                }
            }
        }
        i = i + 1;
    }
}

/// The contributions of an odd class, ascending.
pub fn ascending_contributions(vals: &Vec<(u8, u8)>) -> (a: Vec<i32>)
    ensures
        ascending(a@),
        a@.to_multiset() == expansion(vals@).map_values(|v: u8| contribution(v)).to_multiset(),
        (forall|j: int| 0 <= j < expansion(vals@).len() ==> #[trigger] expansion(vals@)[j] % 2 == 1)
            ==> forall|k: int| 0 <= k < a.len() ==> (#[trigger] a@[k] as int) % 4 == 3,
{
    let mut a = contributions(vals);
    let ghost a0 = a@;
    sort_ascending(&mut a);
    proof {
        broadcast use vstd::seq_lib::group_to_multiset_ensures;

        if forall|j: int| 0 <= j < expansion(vals@).len() ==> #[trigger] expansion(vals@)[j] % 2 == 1 {
            assert forall|k: int| 0 <= k < a.len() implies (#[trigger] a@[k] as int) % 4 == 3 by {
                assert(a@.to_multiset().count(a@[k]) > 0);
                assert(a0.to_multiset().count(a@[k]) > 0);
                assert(a0.contains(a@[k]));
                let j = choose|j: int| 0 <= j < a0.len() && a0[j] == a@[k];
                assert(expansion(vals@)[j] % 2 == 1);
            }
        }
    }
    a
}

/// The positions of the even classes of Golay weight `w`, in order.
pub fn classes_of_weight(even: &Vec<EvenClass>, w: u32) -> (r: Vec<usize>)
    ensures
        forall|k: int| 0 <= k < r.len() ==> #[trigger] r@[k] < even.len() && even@[r@[k] as int].w == w,
        forall|k1: int, k2: int| 0 <= k1 < k2 < r.len() ==> #[trigger] r@[k1] < #[trigger] r@[k2],
        forall|i: int| 0 <= i < even.len() && (#[trigger] even@[i]).w == w ==> r@.contains(i as usize),
{
    let mut r: Vec<usize> = Vec::new();
    let mut i: usize = 0;
    while i < even.len()
        invariant
            i <= even.len(),
            forall|k: int| 0 <= k < r.len() ==> #[trigger] r@[k] < i && even@[r@[k] as int].w == w,
            forall|k1: int, k2: int| 0 <= k1 < k2 < r.len() ==> #[trigger] r@[k1] < #[trigger] r@[k2],
            forall|q: int| 0 <= q < i && (#[trigger] even@[q]).w == w ==> r@.contains(q as usize),
        decreases even.len() - i,
    {
        if even[i].w == w {
            let ghost old_r = r@;
            r.push(i);
            proof {
                assert(r@[old_r.len() as int] == i);
                assert forall|q: int| 0 <= q < i + 1 && (#[trigger] even@[q]).w == w implies r@.contains(q as usize) by {
                    if q < i {
                        let k = choose|k: int| 0 <= k < old_r.len() && old_r[k] == q as usize;
                        assert(r@[k] == q as usize);
                    }
                }
            }
        }
        i = i + 1;
    }
    r
}

/// The even classes of positive Golay weight grouped by weight, weights
/// ascending, each group the non-empty [`classes_of_weight`] list.
pub fn group_by_weight(even: &Vec<EvenClass>) -> (g: Vec<(u32, Vec<usize>)>)
    ensures
        forall|j: int|
            0 <= j < g.len() ==> 1 <= (#[trigger] g@[j]).0 <= 24 && g@[j].1.len() > 0 && (forall|
                k: int,
            | 0 <= k < g@[j].1.len() ==> #[trigger] g@[j].1@[k] < even.len() && even@[g@[j].1@[k] as int].w
                == g@[j].0) && (forall|k1: int, k2: int|
                0 <= k1 < k2 < g@[j].1.len() ==> #[trigger] g@[j].1@[k1] < #[trigger] g@[j].1@[k2])
                && (forall|i: int|
                0 <= i < even.len() && (#[trigger] even@[i]).w == g@[j].0 ==> g@[j].1@.contains(
                    i as usize,
                )),
        forall|j1: int, j2: int| 0 <= j1 < j2 < g.len() ==> (#[trigger] g@[j1]).0 < (#[trigger] g@[j2]).0,
        forall|i: int|
            0 <= i < even.len() && 1 <= (#[trigger] even@[i]).w <= 24 ==> exists|j: int|
                0 <= j < g.len() && (#[trigger] g@[j]).0 == even@[i].w,
{
    let mut g: Vec<(u32, Vec<usize>)> = Vec::new();
    let mut w: u32 = 1;
    while w <= 24
        invariant
            1 <= w <= 25,
            forall|j: int|
                0 <= j < g.len() ==> 1 <= (#[trigger] g@[j]).0 < w && g@[j].1.len() > 0 && (forall|
                    k: int,
                | 0 <= k < g@[j].1.len() ==> #[trigger] g@[j].1@[k] < even.len() && even@[g@[j].1@[k] as int].w
                    == g@[j].0) && (forall|k1: int, k2: int|
                    0 <= k1 < k2 < g@[j].1.len() ==> #[trigger] g@[j].1@[k1] < #[trigger] g@[j].1@[k2])
                    && (forall|i: int|
                    0 <= i < even.len() && (#[trigger] even@[i]).w == g@[j].0 ==> g@[j].1@.contains(
                        i as usize,
                    )),
            forall|j1: int, j2: int| 0 <= j1 < j2 < g.len() ==> (#[trigger] g@[j1]).0 < (#[trigger] g@[j2]).0,
            forall|i: int|
                0 <= i < even.len() && 1 <= (#[trigger] even@[i]).w < w ==> exists|j: int|
                    0 <= j < g.len() && (#[trigger] g@[j]).0 == even@[i].w,
        decreases 25 - w,
    {
        let list = classes_of_weight(even, w);
        if list.len() > 0 {
            let ghost old_g = g@;
            g.push((w, list));
            proof {
                assert forall|i: int|
                    0 <= i < even.len() && 1 <= (#[trigger] even@[i]).w < w + 1 implies exists|j: int|
                    0 <= j < g.len() && (#[trigger] g@[j]).0 == even@[i].w by {
                    if even@[i].w < w {
                        let j = choose|j: int| 0 <= j < old_g.len() && (#[trigger] old_g[j]).0 == even@[i].w;
                        assert(g@[j] == old_g[j]);
                    } else {
                        assert(g@[old_g.len() as int].0 == w);
                    }
                }
            }
        } else {
            proof {
                assert forall|i: int| 0 <= i < even.len() implies (#[trigger] even@[i]).w != w by {
                    if even@[i].w == w {
                        assert(list@.contains(i as usize));
                    }
                }
            }
        }
        w = w + 1;
    }
    g
}

} // verus!
