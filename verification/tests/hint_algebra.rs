use ng_minesweeper::hint::{Hint, HintOrder};

#[test]
fn new_and_getters() {
    let h = Hint::new(vec![4, 7, 9], 2);
    assert_eq!(h.squares(), &vec![4, 7, 9]);
    assert_eq!(h.bombs(), 2);
    assert!(!h.is_empty());
}

#[test]
fn clear_empties_in_place() {
    let mut h = Hint::new(vec![1, 2], 1);
    h.clear();
    assert!(h.is_empty());
    assert_eq!(h.bombs(), 0);
}

#[test]
fn difference_subtracts_region_and_bombs() {
    let a = Hint::new(vec![1, 2, 3, 4], 2);
    let b = Hint::new(vec![2, 4], 1);
    let d = a.difference(&b);
    let mut sq = d.squares().clone();
    sq.sort();
    assert_eq!(sq, vec![1, 3]);
    assert_eq!(d.bombs(), 1);
}

#[test]
fn compare_orders_by_inclusion() {
    let a = Hint::new(vec![1, 2], 1);
    let b = Hint::new(vec![1, 2, 3], 1);
    let c = Hint::new(vec![2, 1], 2);
    let d = Hint::new(vec![3, 4], 1);
    assert_eq!(a.compare(&b), HintOrder::Less);
    assert_eq!(b.compare(&a), HintOrder::Greater);
    assert_eq!(a.compare(&c), HintOrder::Equal);
    assert_eq!(a.compare(&d), HintOrder::Incomparable);
}

#[test]
fn intersection_agreeing_sides() {
    // Both constraints force exactly one mine into the overlap {2}.
    let a = Hint::new(vec![1, 2], 2);
    let b = Hint::new(vec![2, 3], 1);
    let i = a.intersection(&b).expect("sides agree on the overlap");
    assert_eq!(i.squares(), &vec![2]);
    assert_eq!(i.bombs(), 1);
}

#[test]
fn intersection_incompatible_returns_none() {
    // One side keeps the overlap empty of mines, the other fills it.
    let a = Hint::new(vec![1, 2], 0);
    let b = Hint::new(vec![2], 1);
    assert!(a.intersection(&b).is_none());
}

#[test]
fn intersection_ambiguous_returns_none() {
    // The overlap {1, 2} may hold the mine of either side or neither's:
    // the sides do not agree, so no merge happens yet.
    let a = Hint::new(vec![0, 1, 2], 1);
    let b = Hint::new(vec![1, 2, 3], 1);
    assert!(a.intersection(&b).is_none());
}

#[test]
fn intersection_disjoint_is_empty() {
    let a = Hint::new(vec![0, 1], 1);
    let b = Hint::new(vec![2, 3], 1);
    let i = a.intersection(&b).expect("an empty overlap is consistent");
    assert!(i.is_empty());
    assert_eq!(i.bombs(), 0);
}
