//! The extended binary Golay code `[24, 12, 8]`.
//!
//! The code is the span of the twelve rows `(GEN_POLY << i) | 2^23`: the
//! cyclic `[23, 12, 7]` code generated by `GEN_POLY` (weight 7), extended by
//! an overall parity bit. Codewords are kept in weight-major order, ascending
//! within a weight; every rank below refers to that order.
use vstd::prelude::*;

verus! {

/// Generator polynomial of the cyclic `[23, 12, 7]` Golay code.
pub const GEN_POLY: u32 = 0xC75;

/// Number of codewords.
pub const NUM_CODEWORDS: usize = 4096;

/// Bit `i` of `x` (0 or 1).
pub open spec fn bit(x: u32, i: u32) -> u32 {
    (x >> i) & 1
}

/// Number of set bits of `x` among its `k` lowest positions.
pub open spec fn pc_upto(x: u32, k: u32) -> int
    decreases k,
{
    if k == 0 {
        0
    } else {
        pc_upto(x, (k - 1) as u32) + bit(x, (k - 1) as u32)
    }
}

/// Hamming weight of `x`.
pub open spec fn pc(x: u32) -> int {
    pc_upto(x, 32)
}

/// Generator row `i` (for `i < 12`).
pub open spec fn row(i: u32) -> u32 {
    (0xC75u32 << i) | 0x80_0000u32
}

/// Row `i` if bit `i` of the message `m` is set, else 0.
pub open spec fn term(m: u32, i: u32) -> u32 {
    if bit(m, i) == 1 {
        row(i)
    } else {
        0
    }
}

/// The codeword that encodes the 12-bit message `m`: the XOR of the rows
/// selected by its bits.
pub open spec fn encode_spec(m: u32) -> u32 {
    term(m, 0) ^ term(m, 1) ^ term(m, 2) ^ term(m, 3) ^ term(m, 4) ^ term(m, 5) ^ term(m, 6)
        ^ term(m, 7) ^ term(m, 8) ^ term(m, 9) ^ term(m, 10) ^ term(m, 11)
}

/// `x` belongs to the extended Golay code.
pub open spec fn is_codeword(x: u32) -> bool {
    exists|m: u32| m < 4096 && #[trigger] encode_spec(m) == x
}

/// Number of messages `base .. base + k` whose codeword has weight `w`.
pub open spec fn count_block(w: int, base: u32, k: u32) -> int
    decreases k,
{
    if k == 0 {
        0
    } else {
        count_block(w, base, (k - 1) as u32) + if pc(encode_spec((base + k - 1) as u32)) == w {
            1int
        } else {
            0int
        }
    }
}

/// Number of messages `0 .. 64 * j` whose codeword has weight `w`.
pub open spec fn count_upto(w: int, j: u32) -> int
    decreases j,
{
    if j == 0 {
        0
    } else {
        count_upto(w, (j - 1) as u32) + count_block(w, ((j - 1) * 64) as u32, 64)
    }
}

/// The weight distribution of the extended Golay code.
pub open spec fn weight_distribution(w: int) -> int {
    if w == 0 {
        1
    } else if w == 8 {
        759
    } else if w == 12 {
        2576
    } else if w == 16 {
        759
    } else if w == 24 {
        1
    } else {
        0
    }
}

/// A weight that some codeword has.
pub open spec fn is_code_weight(w: int) -> bool {
    w == 0 || w == 8 || w == 12 || w == 16 || w == 24
}

pub open spec fn strictly_increasing(s: Seq<u32>) -> bool {
    forall|a: int, b: int| 0 <= a < b < s.len() ==> s[a] < s[b]
}

/// Every codeword has weight 0, 8, 12, 16 or 24 (so it is doubly even).
pub proof fn lemma_codeword_weights(m: u32)
    requires
        m < 4096,
    ensures
        is_code_weight(pc(encode_spec(m))),
        encode_spec(m) < 0x100_0000,
{
    assert(pc_upto(encode_spec(m), 32) == 0 || pc_upto(encode_spec(m), 32) == 8
        || pc_upto(encode_spec(m), 32) == 12 || pc_upto(encode_spec(m), 32) == 16
        || pc_upto(encode_spec(m), 32) == 24) by (bit_vector)
        requires
            m < 4096,
    ;
    assert(encode_spec(m) < 0x100_0000) by (bit_vector)
        requires
            m < 4096,
    ;
}

/// Distinct messages give distinct codewords.
pub proof fn lemma_encode_injective(a: u32, b: u32)
    requires
        a < 4096,
        b < 4096,
        encode_spec(a) == encode_spec(b),
    ensures
        a == b,
{
    assert(a == b) by (bit_vector)
        requires
            a < 4096,
            b < 4096,
            encode_spec(a) == encode_spec(b),
    ;
}

/// The code is linear: it contains the sum of any two codewords.
pub proof fn lemma_codeword_xor(a: u32, b: u32)
    requires
        a < 4096,
        b < 4096,
    ensures
        encode_spec(a) ^ encode_spec(b) == encode_spec(a ^ b),
        a ^ b < 4096,
{
    assert(encode_spec(a) ^ encode_spec(b) == encode_spec(a ^ b) && a ^ b < 4096)
        by (bit_vector)
        requires
            a < 4096,
            b < 4096,
    ;
}

/// A message count of zero for every weight that no codeword has.
proof fn lemma_count_block_zero(w: int, base: u32, k: u32)
    requires
        !is_code_weight(w),
        base + k <= 4096,
    ensures
        count_block(w, base, k) == 0,
    decreases k,
{
    if k > 0 {
        lemma_count_block_zero(w, base, (k - 1) as u32);
        lemma_codeword_weights((base + k - 1) as u32);
    }
}

proof fn lemma_count_upto_zero(w: int, j: u32)
    requires
        !is_code_weight(w),
        j <= 64,
    ensures
        count_upto(w, j) == 0,
    decreases j,
{
    if j > 0 {
        lemma_count_upto_zero(w, (j - 1) as u32);
        lemma_count_block_zero(w, ((j - 1) * 64) as u32, 64);
    }
}

#[verifier::rlimit(100)]
proof fn lemma_count_0()
    ensures
        count_upto(0, 64) == 1,
{
    assert(count_upto(0, 64) == 1) by (bit_vector);
}

#[verifier::rlimit(100)]
proof fn lemma_count_8()
    ensures
        count_upto(8, 64) == 759,
{
    assert(count_upto(8, 64) == 759) by (bit_vector);
}

#[verifier::rlimit(100)]
proof fn lemma_count_12()
    ensures
        count_upto(12, 64) == 2576,
{
    assert(count_upto(12, 64) == 2576) by (bit_vector);
}

#[verifier::rlimit(100)]
proof fn lemma_count_16()
    ensures
        count_upto(16, 64) == 759,
{
    assert(count_upto(16, 64) == 759) by (bit_vector);
}

#[verifier::rlimit(100)]
proof fn lemma_count_24()
    ensures
        count_upto(24, 64) == 1,
{
    assert(count_upto(24, 64) == 1) by (bit_vector);
}

/// Minimum distance 8: two distinct codewords differ in at least 8 places.
pub proof fn lemma_min_distance(a: u32, b: u32)
    requires
        a < 4096,
        b < 4096,
        a != b,
    ensures
        pc(encode_spec(a) ^ encode_spec(b)) >= 8,
{
    lemma_codeword_xor(a, b);
    let d = a ^ b;
    assert(d != 0) by (bit_vector)
        requires
            a != b,
            d == a ^ b,
    ;
    assert(encode_spec(0) == 0) by (bit_vector);
    if encode_spec(d) == 0 {
        lemma_encode_injective(d, 0);
    }
    let e = encode_spec(d);
    assert(pc_upto(e, 32) != 0) by (bit_vector)
        requires
            e != 0,
    ;
    lemma_codeword_weights(d);
}

/// Weights of a sum and an intersection: `|x ⊕ y| + 2·|x ∧ y| = |x| + |y|`
/// on the `k` lowest bits.
proof fn lemma_pc_xor_and(x: u32, y: u32, k: u32)
    requires
        k <= 32,
    ensures
        pc_upto(x ^ y, k) + 2 * pc_upto(x & y, k) == pc_upto(x, k) + pc_upto(y, k),
    decreases k,
{
    if k > 0 {
        let j = (k - 1) as u32;
        lemma_pc_xor_and(x, y, j);
        assert((((x ^ y) >> j) & 1) + 2 * (((x & y) >> j) & 1) == ((x >> j) & 1) + ((y >> j) & 1))
            by (bit_vector)
        ;
    }
}

/// Self-orthogonality: any two codewords share an even number of ones.
pub proof fn lemma_self_orthogonal(a: u32, b: u32)
    requires
        a < 4096,
        b < 4096,
    ensures
        pc(encode_spec(a) & encode_spec(b)) % 2 == 0,
{
    let x = encode_spec(a);
    let y = encode_spec(b);
    lemma_codeword_xor(a, b);
    lemma_codeword_weights(a);
    lemma_codeword_weights(b);
    lemma_codeword_weights(a ^ b);
    lemma_pc_xor_and(x, y, 32);
    let s = pc(x ^ y);
    let t = pc(x & y);
    assert(t % 2 == 0) by (nonlinear_arith)
        requires
            s + 2 * t == pc(x) + pc(y),
            s % 4 == 0,
            pc(x) % 4 == 0,
            pc(y) % 4 == 0,
    ;
}

/// The weight distribution 1 / 759 / 2576 / 759 / 1, by exhaustive count.
pub proof fn lemma_weight_counts(w: int)
    ensures
        count_upto(w, 64) == weight_distribution(w),
{
    if w == 0 {
        lemma_count_0();
    } else if w == 8 {
        lemma_count_8();
    } else if w == 12 {
        lemma_count_12();
    } else if w == 16 {
        lemma_count_16();
    } else if w == 24 {
        lemma_count_24();
    } else {
        lemma_count_upto_zero(w, 64);
    }
}

/// Carry-less product of the `n` lowest bits of `a` with `b` (mod 2^64).
pub open spec fn clmul_upto(a: u64, b: u64, n: u64) -> u64
    decreases n,
{
    if n == 0 {
        0
    } else if (a >> ((n - 1) as u64)) & 1 == 1 {
        clmul_upto(a, b, (n - 1) as u64) ^ (b << ((n - 1) as u64))
    } else {
        clmul_upto(a, b, (n - 1) as u64)
    }
}

/// Carry-less (GF(2)[x]) product of `a` and `b`, truncated to 64 bits.
pub fn clmul(a: u64, b: u64) -> (r: u64)
    ensures
        r == clmul_upto(a, b, 64),
{
    let mut r: u64 = 0;
    let mut i: u64 = 0;
    while i < 64
        invariant
            i <= 64,
            r == clmul_upto(a, b, i),
        decreases 64 - i,
    {
        if (a >> i) & 1 == 1 {
            r = r ^ (b << i);
        }
        i = i + 1;
    }
    r
}

/// The XOR of the terms of the message bits below `k`.
spec fn partial_code(m: u32, k: u32) -> u32
    decreases k,
{
    if k == 0 {
        0
    } else {
        partial_code(m, (k - 1) as u32) ^ term(m, (k - 1) as u32)
    }
}

/// One step of the product law: XOR-ing in the word `(GEN_POLY << k) | 2^23`
/// XORs `GEN_POLY << k` into the low 23 bits and flips bit 23.
proof fn lemma_code_step(x: u32, m: u32, k: u32)
    by (bit_vector)
    requires
        k < 12,
        x < 0x100_0000,
    ensures
        ((x ^ ((0xC75u32 << k) | 0x80_0000u32)) & 0x7F_FFFFu32) as u64 == ((x & 0x7F_FFFFu32)
            as u64) ^ (0xC75u64 << (k as u64)),
        (x ^ ((0xC75u32 << k) | 0x80_0000u32)) < 0x100_0000,
        (x ^ ((0xC75u32 << k) | 0x80_0000u32)) >> 23u32 == 1u32 - (x >> 23u32),
        x >> 23u32 <= 1,
        x ^ 0u32 == x,
        0u32 ^ m == m,
        (0u32 & 0x7F_FFFFu32) == 0u32,
        0u32 >> 23u32 == 0u32,
        (m >> k) & 1u32 <= 1u32,
        ((m >> k) & 1u32 == 1u32) == (((m as u64) >> (k as u64)) & 1u64 == 1u64),
{
}

proof fn lemma_partial_code(m: u32, k: u32)
    requires
        k <= 12,
    ensures
        partial_code(m, k) < 0x100_0000,
        (partial_code(m, k) & 0x7F_FFFFu32) as u64 == clmul_upto(m as u64, 0xC75u64, k as u64),
        (partial_code(m, k) >> 23u32) as int == pc_upto(m, k) % 2,
    decreases k,
{
    if k == 0 {
        lemma_code_step(0, m, 0);
        assert(pc_upto(m, 0) == 0);
    } else {
        let j = (k - 1) as u32;
        lemma_partial_code(m, j);
        let x = partial_code(m, j);
        lemma_code_step(x, m, j);
        assert(((j as u64) + 1) as u64 == k as u64);
        assert((j + 1) as u32 == k);
        if bit(m, j) == 1 {
            assert(term(m, j) == (0xC75u32 << j) | 0x80_0000u32);
        } else {
            assert(term(m, j) == 0);
        }
    }
}

/// The code is the cyclic Golay code generated by `GEN_POLY`, extended by a
/// parity bit: the codeword of a message `m` carries, in its 23 low bits, the
/// carry-less product `m(x)·GEN_POLY(x)`, and in bit 23 the parity of the
/// number of message bits.
pub proof fn lemma_encode_product(m: u32)
    requires
        m < 4096,
    ensures
        encode_spec(m) < 0x100_0000,
        (encode_spec(m) & 0x7F_FFFFu32) as u64 == clmul_upto(m as u64, GEN_POLY as u64, 12),
        (encode_spec(m) >> 23u32) as int == pc_upto(m, 12) % 2,
{
    lemma_partial_code(m, 12);
    reveal_with_fuel(partial_code, 13);
    lemma_code_step(0, term(m, 0), 0);
    assert(partial_code(m, 1) == term(m, 0));
    assert(partial_code(m, 12) == encode_spec(m));
}

proof fn lemma_single_bit(i: u32, j: u32)
    by (bit_vector)
    requires
        i < 32,
        j < 32,
    ensures
        ((1u32 << i) >> j) & 1u32 == (if i == j { 1u32 } else { 0u32 }),
        i < 12 ==> (1u32 << i) < 4096u32,
{
}

proof fn lemma_partial_unit(i: u32, k: u32)
    requires
        i < 12,
        k <= 12,
    ensures
        partial_code(1u32 << i, k) == (if i < k { (0xC75u32 << i) | 0x80_0000u32 } else { 0u32 }),
    decreases k,
{
    let r = (0xC75u32 << i) | 0x80_0000u32;
    lemma_code_step(0, r, i);
    if k > 0 {
        let j = (k - 1) as u32;
        lemma_partial_unit(i, j);
        lemma_single_bit(i, j);
        let x = partial_code(1u32 << i, j);
        lemma_code_step(x, 1u32 << i, 0);
        lemma_code_step(0, x, 0);
    }
}

/// The generator rows: the message with the single bit `i` encodes to
/// `(GEN_POLY << i) | 2^23`, so each such word is a codeword.
pub proof fn lemma_generator_rows(i: u32)
    requires
        i < 12,
    ensures
        encode_spec(1u32 << i) == (0xC75u32 << i) | 0x80_0000u32,
        is_codeword((0xC75u32 << i) | 0x80_0000u32),
{
    let m = 1u32 << i;
    lemma_partial_unit(i, 12);
    reveal_with_fuel(partial_code, 13);
    lemma_code_step(0, term(m, 0), 0);
    assert(partial_code(m, 1) == term(m, 0));
    assert(partial_code(m, 12) == encode_spec(m));
    lemma_single_bit(i, 0);
    assert(encode_spec(m) == (0xC75u32 << i) | 0x80_0000u32 && m < 4096);
}

/// Hamming weight of `x`.
pub fn popcount(x: u32) -> (r: u32)
    ensures
        r == pc(x),
        r <= 32,
{
    let mut r: u32 = 0;
    let mut k: u32 = 0;
    while k < 32
        invariant
            k <= 32,
            r == pc_upto(x, k),
            r <= k,
        decreases 32 - k,
    {
        let b = (x >> k) & 1;
        assert(b <= 1) by (bit_vector)
            requires
                b == (x >> k) & 1,
        ;
        r = r + b;
        k = k + 1;
    }
    r
}

/// Row `i` if bit `i` of `m` is set, else 0.
fn term_exec(m: u32, i: u32) -> (r: u32)
    requires
        i < 12,
    ensures
        r == term(m, i),
{
    if (m >> i) & 1 == 1 {
        (0xC75u32 << i) | 0x80_0000u32
    } else {
        0
    }
}

/// Codeword of the 12-bit message `m`.
fn encode_message(m: u32) -> (r: u32)
    ensures
        r == encode_spec(m),
{
    term_exec(m, 0) ^ term_exec(m, 1) ^ term_exec(m, 2) ^ term_exec(m, 3) ^ term_exec(m, 4)
        ^ term_exec(m, 5) ^ term_exec(m, 6) ^ term_exec(m, 7) ^ term_exec(m, 8) ^ term_exec(m, 9)
        ^ term_exec(m, 10) ^ term_exec(m, 11)
}

/// Exchanging two entries keeps the contents and their distinctness.
proof fn lemma_swap(s: Seq<u32>, i: int, k: int)
    requires
        0 <= i < s.len(),
        0 <= k < s.len(),
    ensures
        ({
            let t = s.update(i, s[k]).update(k, s[i]);
            &&& t.len() == s.len()
            &&& forall|x: u32| t.contains(x) <==> s.contains(x)
            &&& s.no_duplicates() ==> t.no_duplicates()
        }),
{
    let t = s.update(i, s[k]).update(k, s[i]);
    // Position of an entry of `s` in `t`.
    assert forall|x: u32| t.contains(x) <==> s.contains(x) by {
        if t.contains(x) {
            let p = choose|p: int| 0 <= p < t.len() && t[p] == x;
            if p == k {
                assert(s[i] == x);
            } else if p == i {
                assert(s[k] == x);
            } else {
                assert(s[p] == x);
            }
        }
        if s.contains(x) {
            let p = choose|p: int| 0 <= p < s.len() && s[p] == x;
            if p == k {
                assert(t[i] == x);
            } else if p == i {
                assert(t[k] == x);
            } else {
                assert(t[p] == x);
            }
        }
    }
    if s.no_duplicates() {
        assert forall|a: int, b: int| 0 <= a < t.len() && 0 <= b < t.len() && a != b implies t[a]
            != t[b] by {
            let sa = if a == i {
                k
            } else if a == k {
                i
            } else {
                a
            };
            let sb = if b == i {
                k
            } else if b == k {
                i
            } else {
                b
            };
            assert(t[a] == s[sa]);
            assert(t[b] == s[sb]);
        }
    }
}

/// The codewords of weight `w`, ascending.
fn build_bucket(w: u32) -> (v: Vec<u32>)
    requires
        w <= 24,
    ensures
        strictly_increasing(v@),
        forall|x: u32| v@.contains(x) <==> (is_codeword(x) && pc(x) == w),
        v.len() == count_upto(w as int, 64),
{
    let mut v: Vec<u32> = Vec::new();
    let ghost mut ms: Seq<u32> = Seq::empty();
    let mut j: u32 = 0;
    while j < 64
        invariant
            j <= 64,
            v.len() == count_upto(w as int, j),
            ms.len() == v.len(),
            forall|i: int|
                0 <= i < v.len() ==> v@[i] == encode_spec(#[trigger] ms[i]) && ms[i] < 64 * j
                    && pc(v@[i]) == w,
            forall|a: int, b: int| 0 <= a < b < ms.len() ==> ms[a] < ms[b],
            forall|m: u32| m < 64 * j && pc(encode_spec(m)) == w ==> ms.contains(m),
        decreases 64 - j,
    {
        let mut k: u32 = 0;
        while k < 64
            invariant
                j < 64,
                k <= 64,
                v.len() == count_upto(w as int, j) + count_block(w as int, (j * 64) as u32, k),
                ms.len() == v.len(),
                forall|i: int|
                    0 <= i < v.len() ==> v@[i] == encode_spec(#[trigger] ms[i]) && ms[i] < 64 * j
                        + k && pc(v@[i]) == w,
                forall|a: int, b: int| 0 <= a < b < ms.len() ==> ms[a] < ms[b],
                forall|m: u32| m < 64 * j + k && pc(encode_spec(m)) == w ==> ms.contains(m),
            decreases 64 - k,
        {
            let m = 64 * j + k;
            let c = encode_message(m);
            let cw = popcount(c);
            proof {
                lemma_codeword_weights(m);
            }
            let ghost old_ms = ms;
            if cw == w {
                v.push(c);
                proof {
                    ms = ms.push(m);
                }
            }
            proof {
                assert forall|m2: u32| m2 < 64 * j + k + 1 && pc(encode_spec(m2)) == w implies ms.contains(m2) by {
                    if m2 == m {
                        assert(ms[ms.len() - 1] == m);
                    } else {
                        assert(old_ms.contains(m2));
                        let p = choose|p: int| 0 <= p < old_ms.len() && old_ms[p] == m2;
                        assert(ms[p] == m2);
                    }
                }
            }
            k = k + 1;
        }
        assert(count_upto(w as int, (j + 1) as u32) == count_upto(w as int, j) + count_block(w as int, (j * 64) as u32, 64)) by {
            assert((((j + 1) as u32 - 1) * 64) as u32 == (j * 64) as u32);
        }
        j = j + 1;
    }
    proof {
        assert forall|a: int, b: int| 0 <= a < v.len() && 0 <= b < v.len() && a != b implies v@[a]
            != v@[b] by {
            if v@[a] == v@[b] {
                lemma_encode_injective(ms[a], ms[b]);
            }
        }
        assert forall|x: u32| v@.contains(x) <==> (is_codeword(x) && pc(x) == w) by {
            if v@.contains(x) {
                let p = choose|p: int| 0 <= p < v.len() && v@[p] == x;
                assert(encode_spec(ms[p]) == x);
            }
            if is_codeword(x) && pc(x) == w {
                let m = choose|m: u32| m < 4096 && #[trigger] encode_spec(m) == x;
                assert(ms.contains(m));
                let p = choose|p: int| 0 <= p < ms.len() && ms[p] == m;
                assert(v@[p] == x);
            }
        }
    }
    // Selection sort (all entries are distinct).
    let n = v.len();
    let ghost orig = v@;
    let mut i: usize = 0;
    while i < n
        invariant
            i <= n,
            v.len() == n,
            v@.no_duplicates(),
            forall|x: u32| v@.contains(x) <==> orig.contains(x),
            forall|a: int, b: int| 0 <= a < b < i ==> v@[a] < v@[b],
            forall|a: int, b: int| 0 <= a < i <= b < n ==> v@[a] < v@[b],
        decreases n - i,
    {
        let mut best = i;
        let mut t = i + 1;
        while t < n
            invariant
                i < n,
                i <= best < n,
                i < t <= n,
                v.len() == n,
                forall|q: int| i <= q < t ==> v@[best as int] <= v@[q],
            decreases n - t,
        {
            if v[t] < v[best] {
                best = t;
            }
            t = t + 1;
        }
        let a = v[i];
        let b = v[best];
        proof {
            lemma_swap(v@, i as int, best as int);
        }
        v.set(i, b);
        v.set(best, a);
        proof {
            assert forall|q: int| i < q < n implies v@[i as int] < v@[q] by {
                assert(v@[i as int] != v@[q]);
            }
        }
        i = i + 1;
    }
    v
}

/// The extended Golay code, with its codewords in weight-major order.
pub struct Golay {
    by_weight: Vec<Vec<u32>>,
    all: Vec<u32>,
    starts: Vec<usize>,
}

/// Position in the weight-major order where the codewords of weight `w`
/// begin.
pub open spec fn bucket_start(w: int) -> int
    decreases w,
{
    if w <= 0 {
        0
    } else {
        bucket_start(w - 1) + weight_distribution(w - 1)
    }
}

impl Golay {
    /// The codewords of weight `w`, ascending.
    pub closed spec fn bucket(&self, w: int) -> Seq<u32> {
        self.by_weight@[w]@
    }

    /// All codewords in weight-major order.
    pub closed spec fn words(&self) -> Seq<u32> {
        self.all@
    }

    pub closed spec fn wf(&self) -> bool {
        &&& self.by_weight.len() == 25
        &&& self.starts.len() == 26
        &&& forall|w: int|
            0 <= w <= 24 ==> {
                &&& strictly_increasing(#[trigger] self.by_weight@[w]@)
                &&& forall|x: u32|
                    self.by_weight@[w]@.contains(x) <==> (is_codeword(x) && pc(x) == w)
                &&& self.by_weight@[w]@.len() == weight_distribution(w)
            }
        &&& forall|w: int| 0 <= w <= 25 ==> #[trigger] self.starts@[w] == bucket_start(w)
        &&& self.all.len() == 4096
        &&& forall|w: int, k: int|
            0 <= w <= 24 && 0 <= k < self.by_weight@[w]@.len() ==> self.all@[bucket_start(w) + k]
                == #[trigger] self.by_weight@[w]@[k]
    }

    /// What the well-formedness of a code table gives: each bucket holds
    /// exactly the codewords of its weight, ascending, in the known number;
    /// the flat list is the buckets laid end to end.
    pub proof fn lemma_wf(&self)
        requires
            self.wf(),
        ensures
            forall|w: int|
                0 <= w <= 24 ==> {
                    &&& strictly_increasing(#[trigger] self.bucket(w))
                    &&& forall|x: u32| self.bucket(w).contains(x) <==> (is_codeword(x) && pc(x) == w)
                    &&& self.bucket(w).len() == weight_distribution(w)
                },
            self.words().len() == 4096,
            forall|w: int, k: int|
                0 <= w <= 24 && 0 <= k < self.bucket(w).len() ==> self.words()[bucket_start(w) + k]
                    == #[trigger] self.bucket(w)[k],
    {
    }

    /// The weight bucket that position `k` of the flat list falls in.
    proof fn lemma_index_bucket(&self, k: int) -> (w: int)
        requires
            self.wf(),
            0 <= k < 4096,
        ensures
            0 <= w <= 24,
            bucket_start(w) <= k < bucket_start(w) + weight_distribution(w),
            self.bucket(w).len() == weight_distribution(w),
            self.words()[k] == self.bucket(w)[k - bucket_start(w)],
            self.bucket(w).contains(self.words()[k]),
            is_codeword(self.words()[k]),
            pc(self.words()[k]) == w,
    {
        reveal_with_fuel(bucket_start, 26);
        let w: int = if k < 1 {
            0
        } else if k < 760 {
            8
        } else if k < 3336 {
            12
        } else if k < 4095 {
            16
        } else {
            24
        };
        assert(bucket_start(w) <= k < bucket_start(w) + weight_distribution(w));
        let q = k - bucket_start(w);
        assert(self.words()[bucket_start(w) + q] == self.bucket(w)[q]);
        assert(self.bucket(w).contains(self.bucket(w)[q]));
        w
    }

    /// Every entry of the flat list is a codeword.
    pub proof fn lemma_words_are_codewords(&self, k: int)
        requires
            self.wf(),
            0 <= k < 4096,
        ensures
            is_codeword(self.words()[k]),
    {
        self.lemma_index_bucket(k);
    }

    /// The flat list has no repeated codeword.
    pub proof fn lemma_words_distinct(&self, a: int, b: int)
        requires
            self.wf(),
            0 <= a < 4096,
            0 <= b < 4096,
            self.words()[a] == self.words()[b],
        ensures
            a == b,
    {
        let wa = self.lemma_index_bucket(a);
        let wb = self.lemma_index_bucket(b);
        assert(wa == wb);
        let qa = a - bucket_start(wa);
        let qb = b - bucket_start(wa);
        assert(strictly_increasing(self.bucket(wa)));
        if qa < qb {
            assert(self.bucket(wa)[qa] < self.bucket(wa)[qb]);
        } else if qb < qa {
            assert(self.bucket(wa)[qb] < self.bucket(wa)[qa]);
        }
    }

    /// A codeword of weight `w` sits in bucket `w`, at one position only.
    pub proof fn lemma_bucket_index(&self, c: u32, g: int, h: int)
        requires
            self.wf(),
            is_codeword(c),
            0 <= g < self.bucket(pc(c)).len(),
            0 <= h < self.bucket(pc(c)).len(),
            self.bucket(pc(c))[g] == c,
            self.bucket(pc(c))[h] == c,
        ensures
            g == h,
    {
        let m = choose|m: u32| m < 4096 && #[trigger] encode_spec(m) == c;
        lemma_codeword_weights(m);
        let w = pc(c);
        assert(strictly_increasing(self.bucket(w)));
        if g < h {
            assert(self.bucket(w)[g] < self.bucket(w)[h]);
        } else if h < g {
            assert(self.bucket(w)[h] < self.bucket(w)[g]);
        }
    }

    /// Builds the code table.
    pub fn new() -> (g: Self)
        ensures
            g.wf(),
    {
        let mut by_weight: Vec<Vec<u32>> = Vec::new();
        let mut all: Vec<u32> = Vec::new();
        let mut starts: Vec<usize> = Vec::new();
        let mut w: u32 = 0;
        while w < 25
            invariant
                w <= 25,
                by_weight.len() == w,
                starts.len() == w,
                all.len() == bucket_start(w as int),
                forall|u: int|
                    0 <= u < w ==> {
                        &&& strictly_increasing(#[trigger] by_weight@[u]@)
                        &&& forall|x: u32|
                            by_weight@[u]@.contains(x) <==> (is_codeword(x) && pc(x) == u)
                        &&& by_weight@[u]@.len() == weight_distribution(u)
                    },
                forall|u: int| 0 <= u < w ==> #[trigger] starts@[u] == bucket_start(u),
                forall|u: int, k: int|
                    0 <= u < w && 0 <= k < by_weight@[u]@.len() ==> all@[bucket_start(u) + k]
                        == #[trigger] by_weight@[u]@[k],
            decreases 25 - w,
        {
            proof {
                lemma_weight_counts(w as int);
                lemma_bucket_start_bound(w as int);
            }
            starts.push(all.len());
            let b: Vec<u32> = if w == 0 || w == 8 || w == 12 || w == 16 || w == 24 {
                build_bucket(w)
            } else {
                proof {
                    assert forall|x: u32| !(is_codeword(x) && pc(x) == w) by {
                        if is_codeword(x) {
                            let m = choose|m: u32| m < 4096 && #[trigger] encode_spec(m) == x;
                            lemma_codeword_weights(m);
                        }
                    }
                }
                Vec::new()
            };
            let ghost base = all@;
            let mut k: usize = 0;
            while k < b.len()
                invariant
                    k <= b.len(),
                    b.len() == weight_distribution(w as int),
                    all.len() == base.len() + k,
                    base.len() == bucket_start(w as int),
                    bucket_start(w as int) + weight_distribution(w as int) <= 4096,
                    forall|q: int| 0 <= q < base.len() ==> all@[q] == base[q],
                    forall|q: int| 0 <= q < k ==> all@[base.len() + q] == b@[q],
                decreases b.len() - k,
            {
                all.push(b[k]);
                k = k + 1;
            }
            let ghost old_bw = by_weight@;
            by_weight.push(b);
            proof {
                assert forall|u: int, k2: int|
                    0 <= u < w + 1 && 0 <= k2 < by_weight@[u]@.len() implies all@[bucket_start(u) + k2]
                        == #[trigger] by_weight@[u]@[k2] by {
                    if u < w {
                        assert(by_weight@[u] == old_bw[u]);
                        lemma_bucket_start_bound(u);
                        lemma_bucket_start_mono(u + 1, w as int);
                        assert(bucket_start(u) + k2 < base.len());
                        assert(base[bucket_start(u) + k2] == old_bw[u]@[k2]);
                    } else {
                        assert(by_weight@[u] == b);
                        assert(k2 < b.len());
                        assert(all@[base.len() + k2] == b@[k2]);
                        assert(bucket_start(u) == base.len());
                    }
                }
            }
            w = w + 1;
        }
        proof {
            lemma_bucket_start_bound(25);
        }
        starts.push(all.len());
        Golay { by_weight, all, starts }
    }

    /// `word` is a codeword.
    pub fn contains(&self, word: u32) -> (r: bool)
        requires
            self.wf(),
        ensures
            r == is_codeword(word),
    {
        let w = popcount(word);
        if w > 24 {
            proof {
                if is_codeword(word) {
                    let m = choose|m: u32| m < 4096 && #[trigger] encode_spec(m) == word;
                    lemma_codeword_weights(m);
                }
            }
            return false;
        }
        let r = find_sorted(self.by_weight[w as usize].as_slice(), word);
        r.is_some()
    }

    /// All 4096 codewords, weight-major, ascending within a weight.
    pub fn codewords(&self) -> (r: &[u32])
        requires
            self.wf(),
        ensures
            r@ == self.words(),
            r@.len() == 4096,
    {
        self.all.as_slice()
    }

    /// The codewords of weight `w`, ascending (empty if no codeword has that
    /// weight).
    pub fn of_weight(&self, w: usize) -> (r: &[u32])
        requires
            self.wf(),
            w <= 24,
        ensures
            r@ == self.bucket(w as int),
            r@.len() == weight_distribution(w as int),
            strictly_increasing(r@),
            forall|x: u32| r@.contains(x) <==> (is_codeword(x) && pc(x) == w),
    {
        self.by_weight[w].as_slice()
    }

    /// Position of `c` among the codewords of its weight.
    pub fn rank_in_weight(&self, c: u32) -> (r: Option<usize>)
        requires
            self.wf(),
        ensures
            r is Some <==> is_codeword(c),
            r matches Some(k) ==> k < self.bucket(pc(c)).len() && self.bucket(pc(c))[k as int]
                == c,
    {
        let w = popcount(c);
        if w > 24 {
            proof {
                if is_codeword(c) {
                    let m = choose|m: u32| m < 4096 && #[trigger] encode_spec(m) == c;
                    lemma_codeword_weights(m);
                }
            }
            return None;
        }
        find_sorted(self.by_weight[w as usize].as_slice(), c)
    }

    /// Position of `c` in [`Golay::codewords`].
    pub fn rank(&self, c: u32) -> (r: Option<usize>)
        requires
            self.wf(),
        ensures
            r is Some <==> is_codeword(c),
            r matches Some(k) ==> k < 4096 && self.words()[k as int] == c,
    {
        match self.rank_in_weight(c) {
            None => None,
            Some(k) => {
                let w = popcount(c);
                proof {
                    let m = choose|m: u32| m < 4096 && #[trigger] encode_spec(m) == c;
                    lemma_codeword_weights(m);
                    lemma_bucket_start_bound(w as int);
                    self.lemma_wf();
                }
                Some(self.starts[w as usize] + k)
            },
        }
    }
}

pub(crate) proof fn lemma_bucket_start_bound(w: int)
    requires
        0 <= w <= 25,
    ensures
        bucket_start(w) + weight_distribution(w) <= 4096,
        w <= 24 ==> bucket_start(w) + weight_distribution(w) == bucket_start(w + 1),
        bucket_start(25) == 4096,
        0 <= bucket_start(w) <= 4096,
    decreases w,
{
    reveal_with_fuel(bucket_start, 26);
    if w > 0 {
        lemma_bucket_start_bound(w - 1);
    }
}

proof fn lemma_bucket_start_mono(a: int, b: int)
    requires
        0 <= a <= b <= 25,
    ensures
        bucket_start(a) <= bucket_start(b),
    decreases b - a,
{
    if a < b {
        lemma_bucket_start_mono(a, b - 1);
        lemma_bucket_start_bound(b - 1);
    }
}

/// Bits `0 .. k` of `a` and `b` agree.
pub open spec fn same_bits_upto(a: u32, b: u32, k: u32) -> bool
    decreases k,
{
    if k == 0 {
        true
    } else {
        same_bits_upto(a, b, (k - 1) as u32) && bit(a, (k - 1) as u32) == bit(b, (k - 1) as u32)
    }
}

proof fn lemma_same_bits_upto(a: u32, b: u32, k: u32)
    requires
        k <= 32,
        forall|i: u32| i < k ==> bit(a, i) == bit(b, i),
    ensures
        same_bits_upto(a, b, k),
    decreases k,
{
    if k > 0 {
        lemma_same_bits_upto(a, b, (k - 1) as u32);
    }
}

/// Two 24-bit words with the same bits are equal.
pub(crate) proof fn lemma_eq_by_bits(a: u32, b: u32)
    requires
        a < 0x100_0000,
        b < 0x100_0000,
        forall|i: u32| i < 24 ==> bit(a, i) == bit(b, i),
    ensures
        a == b,
{
    lemma_same_bits_upto(a, b, 24);
    assert(a == b) by (bit_vector)
        requires
            a < 0x100_0000,
            b < 0x100_0000,
            same_bits_upto(a, b, 24),
    ;
}

/// Setting bit `k` (or not) above a value below `2^k`.
pub(crate) proof fn lemma_or_bit(y: u32, k: u32, set: bool, j: u32)
    requires
        k < 24,
        y < (1u32 << k),
        j < k,
    ensures
        (y | (if set { 1u32 << k } else { 0u32 })) < (1u32 << ((k + 1) as u32)),
        bit(y | (if set { 1u32 << k } else { 0u32 }), k) == (if set { 1u32 } else { 0u32 }),
        bit(y | (if set { 1u32 << k } else { 0u32 }), j) == bit(y, j),
{
    let z = y | (if set { 1u32 << k } else { 0u32 });
    if set {
        assert(((y | (1u32 << k)) < (1u32 << ((k + 1) as u32))) && ((y | (1u32 << k)) >> k) & 1
            == 1 && ((y | (1u32 << k)) >> j) & 1 == (y >> j) & 1) by (bit_vector)
            requires
                k < 24,
                y < (1u32 << k),
                j < k,
        ;
    } else {
        assert(((y | 0u32) < (1u32 << ((k + 1) as u32))) && ((y | 0u32) >> k) & 1 == 0 && ((y
            | 0u32) >> j) & 1 == (y >> j) & 1) by (bit_vector)
            requires
                k < 24,
                y < (1u32 << k),
                j < k,
        ;
    }
}

/// Setting bit `k` (or not) on zero.
pub(crate) proof fn lemma_or_bit_zero(k: u32, set: bool)
    requires
        k < 24,
    ensures
        (if set { 1u32 << k } else { 0u32 }) < (1u32 << ((k + 1) as u32)),
        bit(if set { 1u32 << k } else { 0u32 }, k) == (if set { 1u32 } else { 0u32 }),
        0u32 < (1u32 << k),
{
    assert((1u32 << k) < (1u32 << ((k + 1) as u32)) && ((1u32 << k) >> k) & 1 == 1 && 0u32 < (
    1u32 << k) && (0u32 >> k) & 1 == 0) by (bit_vector)
        requires
            k < 24,
    ;
}

/// The number of set bits of a 24-bit word is its weight.
pub(crate) proof fn lemma_pc_24(c: u32)
    requires
        c < 0x100_0000,
    ensures
        pc_upto(c, 24) == pc(c),
{
    assert(pc_upto(c, 24) == pc_upto(c, 32)) by (bit_vector)
        requires
            c < 0x100_0000,
    ;
}

/// Complement of a 24-bit support.
pub fn comp(c: u32) -> (r: u32)
    ensures
        r == !c & 0xFF_FFFF,
{
    !c & 0xFF_FFFF
}

/// Binary search in a strictly increasing slice.
pub fn find_sorted(v: &[u32], x: u32) -> (r: Option<usize>)
    requires
        strictly_increasing(v@),
    ensures
        r is Some <==> v@.contains(x),
        r matches Some(k) ==> k < v.len() && v@[k as int] == x,
{
    let mut lo: usize = 0;
    let mut hi: usize = v.len();
    while lo < hi
        invariant
            lo <= hi <= v.len(),
            strictly_increasing(v@),
            forall|q: int| 0 <= q < lo ==> v@[q] < x,
            forall|q: int| hi <= q < v.len() ==> v@[q] > x,
        decreases hi - lo,
    {
        let mid = lo + (hi - lo) / 2;
        if v[mid] == x {
            return Some(mid);
        } else if v[mid] < x {
            lo = mid + 1;
        } else {
            hi = mid;
        }
    }
    proof {
        assert forall|q: int| 0 <= q < v.len() implies v@[q] != x by {
            if q < lo {
            } else {
                assert(hi <= q);
            }
        }
    }
    None
}

} // verus!
