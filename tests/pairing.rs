use stool::reconcile::{build_lookup, reconcile, LookupEntry, Match};

#[test]
fn lookup_is_stable_by_instant() {
    let lut = build_lookup(&vec![30, 10, 30, 20]);
    let want = vec![
        LookupEntry { instant: 10, index: 1 },
        LookupEntry { instant: 20, index: 3 },
        LookupEntry { instant: 30, index: 0 },
        LookupEntry { instant: 30, index: 2 },
    ];
    assert_eq!(lut, want);
}

#[test]
fn exact_match_has_distance_zero() {
    let mut lut = build_lookup(&vec![100]);
    let r = reconcile(&vec![100], &mut lut, 0);
    assert_eq!(r, vec![Some(Match { index: 0, distance: 0 })]);
    assert!(lut.is_empty());
}

#[test]
fn earlier_payments_are_never_chosen() {
    let mut lut = build_lookup(&vec![95, 108]);
    let r = reconcile(&vec![100], &mut lut, 10);
    assert_eq!(r, vec![Some(Match { index: 1, distance: 8 })]);
    let mut lut = build_lookup(&vec![95]);
    assert_eq!(reconcile(&vec![100], &mut lut, 1000), vec![None]);
}

#[test]
fn cutoff_leaves_rows_unpaired() {
    let mut lut = build_lookup(&vec![105]);
    assert_eq!(reconcile(&vec![100], &mut lut, 4), vec![None]);
    assert_eq!(lut.len(), 1);
    let mut lut = build_lookup(&vec![105]);
    assert_eq!(reconcile(&vec![100], &mut lut, 5), vec![Some(Match { index: 0, distance: 5 })]);
}

#[test]
fn each_payment_is_paired_once() {
    let mut lut = build_lookup(&vec![100]);
    let r = reconcile(&vec![100, 100], &mut lut, 10);
    assert_eq!(r, vec![Some(Match { index: 0, distance: 0 }), None]);
}

#[test]
fn pairing_is_repeatable() {
    let ledger = vec![0, 3, 3, 9, 20];
    let payments = vec![4, 3, 12, 3, 25];
    let mut a = build_lookup(&payments);
    let mut b = build_lookup(&payments);
    let ra = reconcile(&ledger, &mut a, 6);
    let rb = reconcile(&ledger, &mut b, 6);
    assert_eq!(ra, rb);
    assert_eq!(
        ra,
        vec![
            Some(Match { index: 1, distance: 3 }),
            Some(Match { index: 3, distance: 0 }),
            Some(Match { index: 0, distance: 1 }),
            Some(Match { index: 2, distance: 3 }),
            Some(Match { index: 4, distance: 5 }),
        ]
    );
}

#[test]
fn zero_cutoff_pairs_no_more_than_a_wider_one() {
    let ledger = vec![0, 3, 5, 5, 7];
    let payments = vec![3, 5, 5, 8];
    let count = |max: u64| {
        let mut lut = build_lookup(&payments);
        reconcile(&ledger, &mut lut, max).iter().filter(|m| m.is_some()).count()
    };
    assert_eq!(count(0), 3);
    assert!(count(0) <= count(10));
}
