//! Concrete checks of the library's contracts and laws: exact values of the
//! formulas, the edge cases of each function, and the round trips.
use lib::classes::{enumerate_classes, gamma, EvenClass, OddClass};
use lib::combin::{multinomial, perm_rank, perm_unrank};
use lib::golay::{clmul, popcount};
use lib::index::{Indexer, N13};
use lib::leech::THETA;
use lib::shells::{ones_base, FnVisitor, PointLog};
use lib::{Golay, Leech, Metric, Point, Searcher, SplitMix64, DIM};


fn unit(i: usize, v: i32) -> Point {
    let mut x: Point = [0; DIM];
    x[i] = v;
    x
}

#[test]
fn splitmix_known_stream() {
    let mut r = SplitMix64::new(0);
    assert_eq!(r.next(), 0xE220_A839_7B1D_CDAF);
    assert_eq!(r.next(), 0x6E78_9E6A_A1B9_65F4);
    // Same seed, same stream.
    let mut a = SplitMix64::new(42);
    let mut b = SplitMix64::new(42);
    for _ in 0..100 {
        assert_eq!(a.next(), b.next());
    }
}

#[test]
fn carry_less_product_and_popcount() {
    // (x + 1)(x² + 1) = x³ + x² + x + 1.
    assert_eq!(clmul(0b11, 0b101), 0b1111);
    // (x + 1)² = x² + 1 over GF(2).
    assert_eq!(clmul(0b11, 0b11), 0b101);
    assert_eq!(clmul(0, 0xC75), 0);
    assert_eq!(popcount(0), 0);
    assert_eq!(popcount(0xFF_FFFF), 24);
    assert_eq!(popcount(0b1011), 3);
}

#[test]
fn golay_ranks_invert_listings() {
    let g = Golay::new();
    assert!(g.contains(0));
    assert!(g.contains(0xFF_FFFF));
    assert!(!g.contains(1));
    assert_eq!(g.rank(1), None);
    assert_eq!(g.rank_in_weight(0b11), None);
    for (k, &c) in g.codewords().iter().enumerate() {
        assert_eq!(g.rank(c), Some(k));
        let w = c.count_ones() as usize;
        let r = g.rank_in_weight(c).unwrap();
        assert_eq!(g.of_weight(w)[r], c);
    }
    assert!(g.of_weight(7).is_empty());
}

#[test]
fn multinomial_values() {
    assert_eq!(multinomial(&[]), 1);
    assert_eq!(multinomial(&[2, 1]), 3);
    assert_eq!(multinomial(&[1, 1, 1]), 6);
    assert_eq!(multinomial(&[0, 8, 0]), 1);
    // 24! / (12!·12!) = C(24, 12).
    assert_eq!(multinomial(&[12, 12]), 2_704_156);
    // 24! / (23!·1!) = 24.
    assert_eq!(multinomial(&[0, 0, 0, 0, 0, 1, 23]), 24);
}

#[test]
fn permutation_rank_is_a_bijection() {
    let counts = [2u8, 1, 1];
    let n = multinomial(&counts);
    assert_eq!(n, 12);
    let mut seen = vec![false; n as usize];
    for r in 0..n {
        let arr = perm_unrank(r, &counts);
        assert_eq!(arr.len(), 4);
        assert_eq!(perm_rank(&arr, &counts), r);
        assert!(!seen[r as usize]);
        seen[r as usize] = true;
    }
    // Lexicographic: the smallest and largest arrangements.
    assert_eq!(perm_rank(&[0, 0, 1, 2], &counts), 0);
    assert_eq!(perm_rank(&[2, 1, 0, 0], &counts), 11);
    assert_eq!(perm_unrank(1, &counts), vec![0, 0, 2, 1]);
}

#[test]
fn class_cardinality_formulas() {
    assert_eq!(gamma(0), 1);
    assert_eq!(gamma(8), 759);
    assert_eq!(gamma(12), 2576);
    assert_eq!(gamma(16), 759);
    assert_eq!(gamma(24), 1);
    assert_eq!(gamma(4), 0);
    // (±2⁸): 759 octads × 2⁷ sign patterns.
    let octad = EvenClass { shell: 2, word_vals: vec![(2, 8)], free_vals: vec![], w: 8, p_req: 0 };
    assert_eq!(octad.cardinality(), 97_152);
    // (±4²): C(24, 2) placements × 4 signs.
    let fours = EvenClass { shell: 2, word_vals: vec![], free_vals: vec![(4, 2)], w: 0, p_req: 0 };
    assert_eq!(fours.cardinality(), 1_104);
    // (±3, ±1²³): 4096 codewords × 24 positions.
    let three = OddClass { shell: 2, vals: vec![(3, 1), (1, 23)] };
    assert_eq!(three.cardinality(), 98_304);
    let cs = enumerate_classes(3);
    assert_eq!(cs.shell_cardinality(3), THETA[1].1);
    assert_eq!(cs.shell_cardinality(4), 0, "shell 4 is beyond the enumeration");
}

#[test]
fn norms_and_shell_indices() {
    let mut x: Point = [0; DIM];
    x[0] = 4;
    x[1] = -4;
    assert_eq!(Leech::norm2(&x), 32);
    assert_eq!(Leech::shell_index(&x), Some(2));
    assert_eq!(Leech::shell_index(&unit(3, 1)), None);
    assert_eq!(Leech::shell_index(&[0; DIM]), Some(0));
    // Exact on extreme coordinates.
    let big = [i32::MIN; DIM];
    assert_eq!(Leech::norm2(&big), 24 * (1i128 << 62));
    let y = Leech::add(&x, &unit(5, 8));
    assert_eq!(y[0], 4);
    assert_eq!(y[1], -4);
    assert_eq!(y[5], 8);
    assert_eq!(Leech::neg(&y)[1], 4);
}

#[test]
fn lattice_is_an_additive_group() {
    let l = Leech::new();
    let mut rng = SplitMix64::new(7);
    for _ in 0..500 {
        let a = l.random_point(&mut rng, 3);
        let b = l.random_point(&mut rng, 5);
        assert!(l.contains(&Leech::add(&a, &b)));
        assert!(l.contains(&Leech::neg(&a)));
        // Odd + odd is even, even + odd is odd.
        let s = Leech::add(&a, &b);
        assert_eq!(s[0].rem_euclid(2), (a[0] + b[0]).rem_euclid(2));
    }
}

#[test]
fn random_points_respect_the_spread() {
    let l = Leech::new();
    let mut rng = SplitMix64::new(0xABCD);
    for spread in [1, 2, 10] {
        for _ in 0..200 {
            let x = l.random_point(&mut rng, spread);
            assert!(l.contains(&x));
            assert!(x.iter().all(|&v| -4 * spread <= v && v <= 4 * spread + 7));
        }
    }
    // Each draw consumes 26 outputs of the stream.
    let mut r1 = SplitMix64::new(99);
    let mut r2 = SplitMix64::new(99);
    let _ = l.random_point(&mut r1, 2);
    for _ in 0..26 {
        r2.next();
    }
    assert_eq!(r1.next(), r2.next());
}

#[test]
fn random_point_follows_the_drawn_stream() {
    // x_i = p + 2·c_i + 4·k_i from the next 26 outputs, with 4 added to
    // x_0 when Σk − p is odd.
    let l = Leech::new();
    for (seed, spread) in [(7u64, 1i32), (0x5EED, 3), (123_456_789, 20)] {
        let mut rng = SplitMix64::new(seed);
        let mut copy = SplitMix64::new(seed);
        let x = l.random_point(&mut rng, spread);
        let p = (copy.next() % 2) as i32;
        let c = l.golay().codewords()[(copy.next() % 4096) as usize];
        let width = (2 * spread + 1) as u64;
        let mut ksum = 0i64;
        let mut expect: Point = [0; DIM];
        for (i, e) in expect.iter_mut().enumerate() {
            let k = (copy.next() % width) as i32 - spread;
            ksum += k as i64;
            *e = p + 2 * ((c >> i) & 1) as i32 + 4 * k;
        }
        if (ksum - p as i64).rem_euclid(2) == 1 {
            expect[0] += 4;
        }
        assert_eq!(x, expect);
        assert!(l.contains(&x));
    }
}

#[test]
fn odd_coset_base_vectors() {
    assert_eq!(ones_base(0), [1; DIM]);
    let c = 0b1010_0000_0000_0000_0000_0101u32;
    let x = ones_base(c);
    for (i, &v) in x.iter().enumerate() {
        assert_eq!(v, if (c >> i) & 1 == 1 { -1 } else { 1 });
    }
    assert_eq!(x.iter().filter(|&&v| v == -1).count(), 4);
}

#[test]
fn first_indices_of_the_layout() {
    let ix = Indexer::new().expect("the layout covers N(13) points");
    let mut a: Point = [0; DIM];
    a[0] = 4;
    a[1] = 4;
    assert_eq!(ix.decode(0), Some([0; DIM]));
    assert_eq!(ix.decode(1), Some(a));
    let mut b: Point = [0; DIM];
    b[0] = -4;
    b[1] = 4;
    assert_eq!(ix.encode(&b), Some(2));
    // Shells occupy consecutive blocks: 1 ..= 196 560 is Shell(2).
    let last2 = ix.decode(196_560).unwrap();
    let first3 = ix.decode(196_561).unwrap();
    assert_eq!(Leech::shell_index(&last2), Some(2));
    assert_eq!(Leech::shell_index(&first3), Some(3));
}

#[test]
fn multinomials_with_many_kinds() {
    // Twelve kinds, more than any class uses.
    let counts = [2u8, 1, 0, 3, 1, 1, 0, 2, 1, 1, 1, 1];
    // 14! / (2!·3!·2!) = 3 632 428 800
    assert_eq!(multinomial(&counts), 3_632_428_800);
    let arr = perm_unrank(123_456_789, &counts);
    assert_eq!(perm_rank(&arr, &counts), 123_456_789);
    let ones = [1u8; 24];
    assert_eq!(multinomial(&ones), 620_448_401_733_239_439_360_000);
}

#[test]
fn point_log_collects_shell_2() {
    let l = Leech::new();
    let mut log = PointLog::new();
    assert!(l.for_each_shell_point(2, &mut log));
    let pts = log.points();
    assert_eq!(pts.len(), 196_560);
    assert!(pts.iter().all(|p| l.contains(p) && Leech::shell_index(p) == Some(2)));
    let mut sorted = pts.clone();
    sorted.sort();
    sorted.dedup();
    assert_eq!(sorted.len(), 196_560);
    // A second, unsupported walk appends nothing.
    assert!(!l.for_each_shell_point(7, &mut log));
    assert_eq!(log.points().len(), 196_560);
}

#[test]
fn unsupported_shells_visit_nothing() {
    let l = Leech::new();
    for m in [0, 1, 4, 5, 13] {
        let mut n = 0u64;
        assert!(!l.for_each_shell_point(m, &mut FnVisitor::new(|_: &Point| n += 1)));
        assert_eq!(n, 0);
    }
}

#[test]
fn index_layout_edges() {
    let ix = Indexer::new().expect("the layout covers N(13) points");
    // Shell 2 occupies 1 ..= 196 560, shell 3 follows.
    let p1 = ix.decode(1).unwrap();
    assert_eq!(Leech::shell_index(&p1), Some(2));
    let last2 = ix.decode(196_560).unwrap();
    assert_eq!(Leech::shell_index(&last2), Some(2));
    let first3 = ix.decode(196_561).unwrap();
    assert_eq!(Leech::shell_index(&first3), Some(3));
    let first4 = ix.decode(196_561 + THETA[1].1).unwrap();
    assert_eq!(Leech::shell_index(&first4), Some(4));
    let top = ix.decode(N13).unwrap();
    assert_eq!(Leech::shell_index(&top), Some(13));
    assert_eq!(ix.decode(u64::MAX), None);
    // A member of shell 14 (norm 224) lies beyond the ball.
    let mut x: Point = [0; DIM];
    x[0] = 8;
    x[1] = 8;
    x[2] = 8;
    x[3] = 4;
    x[4] = 4;
    assert!(Leech::new().contains(&x));
    assert_eq!(Leech::shell_index(&x), Some(14));
    assert_eq!(ix.encode(&x), None);
    // Mixed parity, wrong word and wrong sum are rejected.
    assert_eq!(ix.encode(&unit(0, 1)), None);
    assert_eq!(ix.encode(&unit(0, 4)), None);
    let mut z: Point = [1; DIM];
    z[0] = -1;
    assert_eq!(ix.encode(&z), None);
    // Extreme coordinates do not overflow and do not encode.
    assert_eq!(ix.encode(&[i32::MAX; DIM]), None);
    // A point of shell 4 encodes after shells 2 and 3.
    let e8 = ix.encode(&unit(7, -8)).unwrap();
    assert!(e8 > 196_560 + THETA[1].1 && e8 <= 196_560 + THETA[1].1 + THETA[2].1);
    assert_eq!(ix.decode(e8), Some(unit(7, -8)));
}

#[test]
fn searcher_handle() {
    let s = Searcher::new();
    assert!(s.leech().contains(&[0; DIM]));
    assert!(Metric::Euclidean != Metric::Angular);
    assert_eq!(Metric::Angular, Metric::Angular);
}
