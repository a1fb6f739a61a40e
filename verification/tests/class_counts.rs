//! The class enumeration reproduces the theta series and the cumulative
//! point count of the ball.
use lib::classes::{
    ascending_contributions, classes_of_weight, contributions, enumerate_classes, expand,
    group_by_weight, kind_ranges, sort_ascending, MAX_SHELL,
};
use lib::leech::{N_SHELL_13_CUMULATIVE, THETA};

/// Class enumeration and cardinality formula reproduce the theta series
/// (shells 2–5) and the cumulative count N(13).
#[test]
fn classes_reproduce_theta_series() {
    let cs = enumerate_classes(MAX_SHELL);
    for &(m, n) in THETA.iter() {
        assert_eq!(cs.shell_cardinality(m), n, "shell {m}");
    }
    let cumulative: u64 = (2..=13).map(|m| cs.shell_cardinality(m)).sum();
    assert_eq!(cumulative, N_SHELL_13_CUMULATIVE, "N(13)");
}

/// Shell 1 is empty and shell 2 has its three known classes.
#[test]
fn spot_checks() {
    let cs = enumerate_classes(2);
    assert_eq!(cs.shell_cardinality(1), 0);
    assert_eq!(cs.shell_cardinality(2), 196_560);
    // Exactly three classes on shell 2: (2⁸), (4²), (3, 1²³).
    assert_eq!(
        cs.even.iter().filter(|c| c.shell == 2).count()
            + cs.odd.iter().filter(|c| c.shell == 2).count(),
        3
    );
}

/// Writing out `(value, count)` pairs repeats each value `count` times.
#[test]
fn expand_writes_out_counts() {
    assert_eq!(expand(&vec![(6, 1), (2, 3)]), vec![6, 2, 2, 2]);
    assert_eq!(expand(&vec![]), Vec::<u8>::new());
    assert_eq!(
        kind_ranges(&vec![(6, 1), (2, 3), (0, 2)]),
        vec![(6, 0, 0), (2, 1, 3), (0, 4, 5)]
    );
}

/// Odd values contribute `+v` when `v ≡ 3 (mod 4)` and `-v` otherwise;
/// the ascending form is sorted and keeps every value.
#[test]
fn odd_contributions() {
    let vals = vec![(5, 1), (3, 2), (1, 21)];
    let a = contributions(&vals);
    assert_eq!(a.len(), 24);
    assert_eq!(&a[..4], &[-5, 3, 3, -1]);
    let asc = ascending_contributions(&vals);
    let mut expected = vec![-5];
    expected.extend(std::iter::repeat(-1).take(21));
    expected.extend([3, 3]);
    assert_eq!(asc, expected);
    let mut v = vec![4, -2, 9, 0, -2];
    sort_ascending(&mut v);
    assert_eq!(v, vec![-2, -2, 0, 4, 9]);
}

/// The even classes of the ball grouped by Golay weight: weights ascending,
/// every class of positive weight in its group, the weight-0 classes apart.
#[test]
fn even_classes_by_weight() {
    let cs = enumerate_classes(MAX_SHELL);
    let groups = group_by_weight(&cs.even);
    let weights: Vec<u32> = groups.iter().map(|(w, _)| *w).collect();
    assert_eq!(weights, vec![8, 12, 16, 24]);
    let zero = classes_of_weight(&cs.even, 0);
    let total: usize = groups.iter().map(|(_, g)| g.len()).sum::<usize>() + zero.len();
    assert_eq!(total, cs.even.len());
    for (w, g) in &groups {
        assert!(g.windows(2).all(|p| p[0] < p[1]));
        assert!(g.iter().all(|&i| cs.even[i].w == *w));
    }
    assert!(zero.iter().all(|&i| cs.even[i].w == 0));
}
