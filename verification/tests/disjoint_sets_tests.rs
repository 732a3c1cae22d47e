use gbwt::support::DisjointSets;

#[test]
fn disjoint_sets_example() {
    let mut sets = DisjointSets::new(7, 2);
    assert_eq!(sets.len(), 7);
    assert!(!sets.is_empty());
    assert_eq!(sets.offset(), 2);

    sets.union(3, 4);
    sets.union(3, 5);
    sets.union(5, 7);
    assert_eq!(sets.find(7), 3 - sets.offset());

    let sets = sets.extract(|value| value != 6);
    assert_eq!(sets.len(), 3);
    assert_eq!(sets[0], vec![2]);
    assert_eq!(sets[1], vec![3, 4, 5, 7]);
    assert_eq!(sets[2], vec![8]);
}

#[test]
fn disjoint_sets_empty() {
    let mut sets = DisjointSets::new(0, 5);
    assert_eq!(sets.len(), 0);
    assert!(sets.is_empty());
    assert_eq!(sets.offset(), 5);
    assert!(sets.extract(|_| true).is_empty());
}

#[test]
fn disjoint_sets_separate() {
    let mut sets = DisjointSets::new(4, 10);
    for value in 10..14 {
        assert_eq!(sets.find(value), value - 10);
    }
    assert_eq!(sets.extract(|_| true), vec![vec![10], vec![11], vec![12], vec![13]]);
    assert!(sets.extract(|_| false).is_empty());
}

#[test]
fn disjoint_sets_union_by_rank() {
    let mut sets = DisjointSets::new(6, 0);
    // Equal ranks: the root of the first value stays.
    sets.union(1, 0);
    assert_eq!(sets.find(0), 1);
    assert_eq!(sets.find(1), 1);
    sets.union(2, 3);
    assert_eq!(sets.find(3), 2);
    // A single value has the lower rank, whichever side it is on.
    sets.union(4, 1);
    assert_eq!(sets.find(4), 1);
    sets.union(3, 5);
    assert_eq!(sets.find(5), 2);
    // Equal ranks again.
    sets.union(5, 4);
    for value in 0..6 {
        assert_eq!(sets.find(value), 2);
    }
    assert_eq!(sets.extract(|_| true), vec![vec![0, 1, 2, 3, 4, 5]]);
}

#[test]
fn disjoint_sets_union_twice() {
    let mut sets = DisjointSets::new(3, 1);
    sets.union(1, 2);
    let copy = sets.clone();
    sets.union(2, 1);
    sets.union(1, 1);
    assert_eq!(sets.find(1), copy.clone().find(1));
    assert_eq!(sets.extract(|_| true), vec![vec![1, 2], vec![3]]);
}

#[test]
fn disjoint_sets_extract_order() {
    let mut sets = DisjointSets::new(10, 100);
    sets.union(109, 100);
    sets.union(105, 103);
    sets.union(103, 108);
    sets.union(101, 102);
    let all = sets.extract(|_| true);
    assert_eq!(all, vec![
        vec![100, 109],
        vec![101, 102],
        vec![103, 105, 108],
        vec![104],
        vec![106],
        vec![107],
    ]);
    // Leaving out the lowest value of a set changes where the set stands.
    let some = sets.extract(|value| value != 100 && value != 104);
    assert_eq!(some, vec![
        vec![101, 102],
        vec![103, 105, 108],
        vec![106],
        vec![107],
        vec![109],
    ]);
}

#[test]
fn disjoint_sets_long_chain() {
    let n = 1000;
    let mut sets = DisjointSets::new(n, 0);
    for value in 1..n {
        sets.union(value - 1, value);
    }
    let root = sets.find(0);
    for value in 0..n {
        assert_eq!(sets.find(value), root);
    }
    let all = sets.extract(|_| true);
    assert_eq!(all.len(), 1);
    assert_eq!(all[0], (0..n).collect::<Vec<usize>>());
}
