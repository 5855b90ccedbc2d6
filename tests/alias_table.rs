use alias_table::{AliasEntry, AliasTable, BuildError};
use rand::rngs::StdRng;
use rand::SeedableRng;

fn table_of(weights: &[u64]) -> AliasTable<usize> {
    let pairs: Vec<(usize, u64)> = weights.iter().copied().enumerate().collect();
    AliasTable::build(pairs).expect("weights with a positive sum")
}

/// Counts, for every item, the (slot, draw) pairs that resolve to it.
fn exact_counts(t: &AliasTable<usize>) -> Vec<u128> {
    let mut counts = vec![0u128; t.len()];
    for slot in 0..t.len() {
        for draw in 0..t.total_weight() {
            counts[*t.pick_with(slot, draw)] += 1;
        }
    }
    counts
}

fn check_well_formed(t: &AliasTable<usize>, n: usize) {
    assert_eq!(t.len(), n);
    assert_eq!(t.entries().len(), n);
    for e in t.entries() {
        match *e {
            AliasEntry::Aliased { threshold, value, alias } => {
                assert!(threshold < t.total_weight());
                assert!(value < n);
                assert!(alias < n);
            }
            AliasEntry::Unaliased(i) => assert!(i < n),
        }
    }
}

#[test]
fn single_item_table_is_one_unaliased_slot() {
    let t = AliasTable::build(vec![("only", 5u64)]).unwrap();
    assert_eq!(t.entries(), &vec![AliasEntry::Unaliased(0)]);
    assert_eq!(t.total_weight(), 5);
    let mut rng = StdRng::seed_from_u64(1);
    for _ in 0..100 {
        assert_eq!(*t.pick(&mut rng), "only");
    }
}

#[test]
fn uniform_weights_make_no_split_slots() {
    let t = table_of(&[1, 1, 1, 1]);
    assert_eq!(
        t.entries(),
        &vec![
            AliasEntry::Unaliased(0),
            AliasEntry::Unaliased(1),
            AliasEntry::Unaliased(2),
            AliasEntry::Unaliased(3),
        ]
    );
}

#[test]
fn two_item_skew_splits_one_slot() {
    let t = table_of(&[1, 3]);
    assert_eq!(t.total_weight(), 4);
    // A threshold of 2 out of 4 is the scaled probability 0.5 of the small item.
    assert_eq!(
        t.entries(),
        &vec![
            AliasEntry::Aliased { threshold: 2, value: 0, alias: 1 },
            AliasEntry::Unaliased(1),
        ]
    );
    assert_eq!(exact_counts(&t), vec![2, 6]);
}

#[test]
fn pairing_takes_from_the_back_of_both_lists() {
    let t = table_of(&[3, 1, 2, 2]);
    assert_eq!(t.total_weight(), 8);
    assert_eq!(
        t.entries(),
        &vec![
            AliasEntry::Aliased { threshold: 4, value: 1, alias: 3 },
            AliasEntry::Aliased { threshold: 4, value: 3, alias: 2 },
            AliasEntry::Aliased { threshold: 4, value: 2, alias: 0 },
            AliasEntry::Unaliased(0),
        ]
    );
}

#[test]
fn zero_weight_item_is_never_drawn() {
    let t = table_of(&[0, 1]);
    assert_eq!(
        t.entries(),
        &vec![
            AliasEntry::Aliased { threshold: 0, value: 0, alias: 1 },
            AliasEntry::Unaliased(1),
        ]
    );
    assert_eq!(exact_counts(&t), vec![0, 2]);
    let mut rng = StdRng::seed_from_u64(3);
    for _ in 0..1000 {
        assert_eq!(*t.pick(&mut rng), 1);
    }
}

#[test]
fn empty_input_is_rejected() {
    let r = AliasTable::<u8>::build(Vec::new());
    assert!(matches!(r, Err(BuildError::Empty)));
}

#[test]
fn all_zero_weights_are_rejected() {
    let r = AliasTable::build(vec![('a', 0u64), ('b', 0u64), ('c', 0u64)]);
    assert!(matches!(r, Err(BuildError::ZeroWeight)));
}

#[test]
fn items_keep_their_order() {
    let t = AliasTable::build(vec![("x", 2u64), ("y", 0u64), ("z", 7u64)]).unwrap();
    assert_eq!(t.items(), &vec!["x", "y", "z"]);
    assert_eq!(t.total_weight(), 9);
}

#[test]
fn construction_keeps_one_slot_per_item_with_indices_in_range() {
    let inputs: Vec<Vec<u64>> = vec![
        vec![7],
        vec![1, 2],
        vec![5, 0, 0, 1],
        vec![10, 1, 1, 1, 1, 1, 1],
        vec![3, 3, 3, 1, 0, 9, 2, 2, 8],
        vec![u64::MAX, 1, u64::MAX],
        (1..=40).collect(),
    ];
    for ws in inputs {
        let t = table_of(&ws);
        check_well_formed(&t, ws.len());
        let sum: u128 = ws.iter().map(|&w| w as u128).sum();
        assert_eq!(t.total_weight(), sum);
    }
}

#[test]
fn every_item_gets_exactly_its_share_of_draws() {
    let inputs: Vec<Vec<u64>> = vec![
        vec![1, 2, 3, 4],
        vec![3, 1, 2, 2],
        vec![5, 0, 0, 1],
        vec![2, 7, 1, 1, 9],
        vec![4],
    ];
    for ws in inputs {
        let t = table_of(&ws);
        let n = ws.len() as u128;
        let expected: Vec<u128> = ws.iter().map(|&w| w as u128 * n).collect();
        assert_eq!(exact_counts(&t), expected);
    }
}

#[test]
fn sampled_frequencies_follow_the_weights() {
    let ws = [1u64, 2, 3, 4];
    let t = table_of(&ws);
    let mut rng = StdRng::seed_from_u64(20240601);
    let draws = 400_000usize;
    let mut counts = [0usize; 4];
    for _ in 0..draws {
        counts[*t.pick(&mut rng)] += 1;
    }
    for i in 0..4 {
        let freq = counts[i] as f64 / draws as f64;
        let want = ws[i] as f64 / 10.0;
        assert!((freq - want).abs() < 0.005, "item {i}: {freq} against {want}");
    }
}

#[test]
fn pick_repeats_with_a_reset_source() {
    let t = table_of(&[2, 7, 1, 1, 9]);
    let mut first = StdRng::seed_from_u64(99);
    let a: Vec<usize> = (0..50).map(|_| *t.pick(&mut first)).collect();
    let mut second = StdRng::seed_from_u64(99);
    let b: Vec<usize> = (0..50).map(|_| *t.pick(&mut second)).collect();
    assert_eq!(a, b);
    assert_eq!(t.pick_with(2, 0), t.pick_with(2, 0));
}

#[test]
fn pick_with_splits_a_slot_at_its_threshold() {
    let t = table_of(&[1, 3]);
    assert_eq!(*t.pick_with(0, 0), 0);
    assert_eq!(*t.pick_with(0, 1), 0);
    assert_eq!(*t.pick_with(0, 2), 1);
    assert_eq!(*t.pick_with(0, 3), 1);
    assert_eq!(*t.pick_with(1, 0), 1);
    assert_eq!(*t.pick_with(1, 3), 1);
}

#[test]
fn pick_draws_every_slot_and_stays_in_range() {
    let t = table_of(&[1, 1, 1]);
    let mut rng = StdRng::seed_from_u64(5);
    let mut seen = [false; 3];
    for _ in 0..1000 {
        let x = *t.pick(&mut rng);
        assert!(x < 3);
        seen[x] = true;
    }
    assert_eq!(seen, [true, true, true]);
}

#[test]
fn iterator_never_ends_and_takes_what_is_asked() {
    let t = table_of(&[1, 2, 3]);
    let mut it = t.iter(StdRng::seed_from_u64(11));
    assert_eq!(it.size_hint(), (usize::MAX, None));
    for _ in 0..100 {
        assert!(it.next().is_some());
    }
    let first = it.take(25);
    assert_eq!(first.len(), 25);
    assert!(first.iter().all(|&&x| x < 3));
    assert_eq!(it.take(0).len(), 0);
}

#[test]
fn iterator_matches_repeated_picks_on_the_same_seed() {
    let t = table_of(&[4, 1, 1, 6]);
    let mut it = t.iter(StdRng::seed_from_u64(77));
    let from_iter: Vec<usize> = it.take(40).into_iter().copied().collect();
    let mut rng = StdRng::seed_from_u64(77);
    let from_pick: Vec<usize> = (0..40).map(|_| *t.pick(&mut rng)).collect();
    assert_eq!(from_iter, from_pick);
}

#[test]
fn uniform_slot_resolves_to_its_own_item() {
    let t = table_of(&[1, 1, 1, 1]);
    assert_eq!(*t.pick_with(2, 0), 2);
    assert_eq!(*t.pick_with(2, 3), 2);
    assert_eq!(*t.pick_with(0, 1), 0);
}

#[test]
fn equal_inputs_build_equal_tables() {
    let ws = [2u64, 7, 1, 1, 9, 0, 4];
    assert_eq!(table_of(&ws).entries(), table_of(&ws).entries());
}
