use scapegoat::{SgError, SgTree};

fn s1() -> SgTree<u64, &'static str, 10> {
    let mut t = SgTree::<u64, &str, 10>::new();
    for (k, v) in [(3, "a"), (1, "b"), (2, "c"), (5, "d"), (4, "e")] {
        t.insert(k, v);
    }
    t
}

#[test]
fn s1_inorder_get_len() {
    let t = s1();
    let got: Vec<(u64, &str)> = t.iter().into_iter().map(|(k, v)| (*k, *v)).collect();
    assert_eq!(got, vec![(1, "b"), (2, "c"), (3, "a"), (4, "e"), (5, "d")]);
    assert_eq!(t.get(&3), Some(&"a"));
    assert_eq!(t.len(), 5);
}

#[test]
fn s2_replace_returns_old() {
    let mut t = s1();
    assert_eq!(t.insert(3, "z"), Some("a"));
    assert_eq!(t.get(&3), Some(&"z"));
    assert_eq!(t.len(), 5);
}

#[test]
fn s4_full_tree() {
    let mut t = SgTree::<u64, u64, 10>::new();
    for k in 0..10u64 {
        assert_eq!(t.try_insert(k, k * 2), Ok(None));
    }
    assert!(t.is_full());
    assert_eq!(t.try_insert(100, 1), Err(SgError::StackCapacityExceeded));
    assert_eq!(t.try_insert(4, 99), Ok(Some(8)));
    assert_eq!(t.get(&4), Some(&99));
    assert_eq!(t.len(), 10);
}

#[test]
fn s5_rebalance_factor_range() {
    let mut t = SgTree::<u64, u64, 10>::new();
    assert_eq!(t.set_rebal_param(1, 3), Err(SgError::RebalanceFactorOutOfRange));
    assert_eq!(t.set_rebal_param(3, 4), Ok(()));
    assert_eq!(t.rebal_param(), (3, 4));
    assert_eq!(t.set_rebal_param(1, 2), Ok(()));
    assert_eq!(t.set_rebal_param(4, 4), Err(SgError::RebalanceFactorOutOfRange));
}

#[test]
fn empty_tree_queries() {
    let t = SgTree::<i32, i32, 4>::new();
    assert!(t.is_empty());
    assert_eq!(t.len(), 0);
    assert_eq!(t.get(&1), None);
    assert!(!t.contains_key(&1));
    assert_eq!(t.capacity(), 4);
    assert!(t.iter().is_empty());
}

#[test]
fn get_key_value_and_contains() {
    let t = s1();
    assert_eq!(t.get_key_value(&5), Some((&5, &"d")));
    assert!(t.contains_key(&4));
    assert!(!t.contains_key(&6));
}

fn pairs(t: &SgTree<u64, &'static str, 10>) -> Vec<(u64, &'static str)> {
    t.iter().into_iter().map(|(k, v)| (*k, *v)).collect()
}

#[test]
fn s3_remove_keeps_order() {
    let mut t = s1();
    assert_eq!(t.remove(&3), Some("a"));
    assert_eq!(pairs(&t), vec![(1, "b"), (2, "c"), (4, "e"), (5, "d")]);
    assert_eq!(t.len(), 4);
    assert_eq!(t.remove(&3), None);
    assert_eq!(t.len(), 4);
}

#[test]
fn s6_degenerate_input_rebalances() {
    let mut t = SgTree::<u64, u64, 10>::new();
    for k in 1..=8u64 {
        t.insert(k, k);
    }
    assert!(t.rebal_cnt() > 0);
    assert!(t.height() <= 4);
    let keys: Vec<u64> = t.iter().into_iter().map(|(k, _)| *k).collect();
    assert_eq!(keys, vec![1, 2, 3, 4, 5, 6, 7, 8]);
}

#[test]
fn remove_entry_returns_key_and_value() {
    let mut t = s1();
    assert_eq!(t.remove_entry(&5), Some((5, "d")));
    assert_eq!(t.remove_entry(&5), None);
    assert_eq!(t.last_key(), Some(&4));
}

#[test]
fn first_and_last() {
    let mut t = s1();
    assert_eq!(t.first_key_value(), Some((&1, &"b")));
    assert_eq!(t.last_key_value(), Some((&5, &"d")));
    assert_eq!(t.first_key(), Some(&1));
    assert_eq!(t.pop_first(), Some((1, "b")));
    assert_eq!(t.pop_last(), Some((5, "d")));
    assert_eq!(pairs(&t), vec![(2, "c"), (3, "a"), (4, "e")]);
    assert_eq!(t.first_key(), Some(&2));
    assert_eq!(t.last_key(), Some(&4));
}

#[test]
fn pop_on_empty() {
    let mut t = SgTree::<u64, &str, 10>::new();
    assert_eq!(t.pop_first(), None);
    assert_eq!(t.pop_last(), None);
    assert_eq!(t.first_key_value(), None);
}

#[test]
fn remove_two_children_nodes_in_all_orders() {
    // Removal of inner nodes, including ones whose successor is deep.
    let keys = [50u64, 30, 70, 20, 40, 60, 80, 35, 45, 65];
    for victim in keys {
        let mut t = SgTree::<u64, u64, 16>::new();
        for k in keys {
            t.insert(k, k + 1);
        }
        assert_eq!(t.remove(&victim), Some(victim + 1));
        let mut expect: Vec<u64> = keys.iter().copied().filter(|k| *k != victim).collect();
        expect.sort();
        let got: Vec<u64> = t.iter().into_iter().map(|(k, _)| *k).collect();
        assert_eq!(got, expect);
        for k in expect {
            assert_eq!(t.get(&k), Some(&(k + 1)));
        }
    }
}

#[test]
fn insert_remove_churn_stays_consistent() {
    let mut t = SgTree::<u64, u64, 64>::new();
    let mut model = std::collections::BTreeMap::new();
    let mut x: u64 = 7;
    for _ in 0..2000 {
        x = x.wrapping_mul(6364136223846793005).wrapping_add(1442695040888963407);
        let k = (x >> 33) % 50;
        if (x >> 20) % 3 == 0 {
            assert_eq!(t.remove(&k), model.remove(&k));
        } else {
            assert_eq!(t.insert(k, x), model.insert(k, x));
        }
        assert_eq!(t.len(), model.len());
    }
    let got: Vec<(u64, u64)> = t.iter().into_iter().map(|(k, v)| (*k, *v)).collect();
    let want: Vec<(u64, u64)> = model.into_iter().collect();
    assert_eq!(got, want);
}

#[test]
fn s7_retain_even_then_consume() {
    let mut t = SgTree::<u64, u64, 10>::new();
    for k in 0..=7u64 {
        t.insert(k, k * 10);
    }
    t.retain(|k, _| k % 2 == 0);
    assert_eq!(t.len(), 4);
    assert_eq!(t.into_iter(), vec![(0, 0), (2, 20), (4, 40), (6, 60)]);
}

#[test]
fn retain_all_and_none() {
    let mut t = s1();
    t.retain(|_, _| true);
    assert_eq!(t.len(), 5);
    t.retain(|_, v| *v != "a");
    assert_eq!(t.get(&3), None);
    assert_eq!(t.len(), 4);
    t.retain(|_, _| false);
    assert!(t.is_empty());
    assert_eq!(t.first_key(), None);
}

#[test]
fn into_iter_is_sorted() {
    let t = s1();
    assert_eq!(t.into_iter(), vec![(1, "b"), (2, "c"), (3, "a"), (4, "e"), (5, "d")]);
}

#[test]
fn round_trip_through_into_iter() {
    let t = s1();
    let pairs = t.into_iter();
    let mut u = SgTree::<u64, &str, 10>::new();
    for (k, v) in pairs.clone().into_iter().rev() {
        u.insert(k, v);
    }
    assert_eq!(u.into_iter(), pairs);
}

#[test]
fn permutations_traverse_alike() {
    let orders: [[u64; 5]; 3] = [[1, 2, 3, 4, 5], [5, 4, 3, 2, 1], [3, 1, 4, 5, 2]];
    let mut seen = Vec::new();
    for order in orders {
        let mut t = SgTree::<u64, u64, 8>::new();
        for k in order {
            t.insert(k, k * k);
        }
        seen.push(t.into_iter());
    }
    assert_eq!(seen[0], seen[1]);
    assert_eq!(seen[1], seen[2]);
}

#[test]
fn clear_empties() {
    let mut t = s1();
    t.clear();
    assert!(t.is_empty());
    assert_eq!(t.get(&1), None);
    t.insert(9, "x");
    assert_eq!(t.len(), 1);
}

#[test]
fn deletion_heavy_rebuilds_whole_tree() {
    let mut t = SgTree::<u64, u64, 32>::new();
    for k in 0..32u64 {
        t.insert(k, k);
    }
    let before = t.rebal_cnt();
    for k in 0..20u64 {
        assert_eq!(t.remove(&k), Some(k));
    }
    assert!(t.rebal_cnt() > before);
    let keys: Vec<u64> = t.iter().into_iter().map(|(k, _)| *k).collect();
    assert_eq!(keys, (20..32).collect::<Vec<u64>>());
}

#[test]
fn sort_arena_keeps_contents() {
    let mut t = s1();
    t.remove(&2);
    t.sort_arena();
    assert_eq!(pairs(&t), vec![(1, "b"), (3, "a"), (4, "e"), (5, "d")]);
    t.sort_arena();
    assert_eq!(pairs(&t), vec![(1, "b"), (3, "a"), (4, "e"), (5, "d")]);
    assert_eq!(t.first_key(), Some(&1));
    assert_eq!(t.last_key(), Some(&5));
    t.insert(2, "q");
    assert_eq!(t.get(&2), Some(&"q"));
    assert_eq!(t.len(), 5);
}

#[test]
fn split_off_at_key() {
    let mut t = s1();
    let hi = t.split_off(&3);
    assert_eq!(pairs(&t), vec![(1, "b"), (2, "c")]);
    assert_eq!(pairs(&hi), vec![(3, "a"), (4, "e"), (5, "d")]);
    let mut t = s1();
    let none = t.split_off(&9);
    assert!(none.is_empty());
    assert_eq!(t.len(), 5);
    let all = t.split_off(&0);
    assert!(t.is_empty());
    assert_eq!(all.len(), 5);
}

#[test]
fn append_moves_everything() {
    let mut a = SgTree::<u64, &str, 10>::new();
    a.insert(1, "a1");
    a.insert(2, "a2");
    let mut b = SgTree::<u64, &str, 10>::new();
    b.insert(2, "b2");
    b.insert(3, "b3");
    a.append(&mut b);
    assert!(b.is_empty());
    assert_eq!(pairs(&a), vec![(1, "a1"), (2, "b2"), (3, "b3")]);
}

#[test]
fn overwrite_does_not_rebuild() {
    let mut t = SgTree::<u64, u64, 16>::new();
    for k in 1..=8u64 {
        t.insert(k, k);
    }
    let count = t.rebal_cnt();
    let h = t.height();
    assert_eq!(t.insert(8, 80), Some(8));
    assert_eq!(t.rebal_cnt(), count);
    assert_eq!(t.height(), h);
    assert_eq!(t.len(), 8);
}

#[test]
fn height_of_small_trees() {
    let mut t = SgTree::<u64, u64, 16>::new();
    assert_eq!(t.height(), 0);
    t.insert(5, 5);
    assert_eq!(t.height(), 1);
    t.insert(3, 3);
    t.insert(7, 7);
    assert_eq!(t.height(), 2);
}

#[test]
fn try_new_reports_capacity() {
    assert!(SgTree::<u64, u64, 10>::try_new().is_ok());
    assert!(matches!(
        SgTree::<u64, u64, 70000>::try_new(),
        Err(SgError::MaximumCapacityExceeded)
    ));
}

#[test]
fn rebalanced_heights_stay_logarithmic() {
    let mut t = SgTree::<u64, u64, 1024>::new();
    for k in 0..1000u64 {
        t.insert(k, k);
    }
    // 2/3 weight balance: depth bound log_{3/2}(1000) + 1 is about 18.
    assert!(t.height() <= 18);
}

#[test]
fn clear_keeps_rebalance_factor() {
    let mut t = s1();
    assert_eq!(t.set_rebal_param(3, 4), Ok(()));
    t.clear();
    assert_eq!(t.rebal_param(), (3, 4));
}

#[test]
fn stricter_factor_rebuilds_deep_tree() {
    let mut t = SgTree::<u64, u64, 64>::new();
    assert_eq!(t.set_rebal_param(99, 100), Ok(()));
    for k in 0..40u64 {
        t.insert(k, k);
    }
    let deep = t.height();
    assert_eq!(t.set_rebal_param(1, 2), Ok(()));
    assert!(t.height() <= deep);
    // log2(40) + 1 is about 6.3
    assert!(t.height() <= 6);
    let keys: Vec<u64> = t.iter().into_iter().map(|(k, _)| *k).collect();
    assert_eq!(keys, (0..40).collect::<Vec<u64>>());
}

#[test]
fn rebalance_keeps_contents() {
    let mut t = SgTree::<u64, u64, 32>::new();
    assert_eq!(t.set_rebal_param(99, 100), Ok(()));
    for k in 0..20u64 {
        t.insert(k, k + 1);
    }
    let before = t.rebal_cnt();
    t.rebalance();
    assert_eq!(t.rebal_cnt(), before + 1);
    assert!(t.height() <= 5);
    assert_eq!(t.len(), 20);
    let got: Vec<(u64, u64)> = t.iter().into_iter().map(|(k, v)| (*k, *v)).collect();
    assert_eq!(got, (0..20).map(|k| (k, k + 1)).collect::<Vec<_>>());
    let mut e = SgTree::<u64, u64, 4>::new();
    e.rebalance();
    assert_eq!(e.rebal_cnt(), 0);
}

#[test]
fn get_mut_changes_value_in_place() {
    let mut t = s1();
    if let Some(v) = t.get_mut(&4) {
        *v = "changed";
    }
    assert_eq!(t.get(&4), Some(&"changed"));
    assert!(t.get_mut(&9).is_none());
    assert_eq!(t.len(), 5);
}

#[test]
fn try_extend_in_order_later_wins() {
    let mut t = SgTree::<u64, &str, 4>::new();
    t.insert(1, "a");
    assert_eq!(t.try_extend(vec![(2, "b"), (3, "c"), (2, "z")]), Ok(()));
    assert_eq!(pairs4(&t), vec![(1, "a"), (2, "z"), (3, "c")]);
    assert_eq!(
        t.try_extend(vec![(7, "x"), (8, "y")]),
        Err(SgError::StackCapacityExceeded)
    );
    assert_eq!(t.len(), 3);
}

fn pairs4(t: &SgTree<u64, &'static str, 4>) -> Vec<(u64, &'static str)> {
    t.iter().into_iter().map(|(k, v)| (*k, *v)).collect()
}

#[test]
fn try_from_iter_checks_capacity() {
    let t = SgTree::<u64, &str, 4>::try_from_iter(vec![(3, "c"), (1, "a")]).unwrap();
    assert_eq!(pairs4(&t), vec![(1, "a"), (3, "c")]);
    assert!(matches!(
        SgTree::<u64, &str, 4>::try_from_iter(vec![(1, "a"), (2, "b"), (3, "c"), (4, "d"), (5, "e")]),
        Err(SgError::StackCapacityExceeded)
    ));
}

#[test]
fn s7_from_iter_retain_consume() {
    let mut t = SgTree::<i32, i32, 10>::try_from_iter((0..8).map(|x| (x, x * 10)).collect()).unwrap();
    t.retain(|k, _| k % 2 == 0);
    assert_eq!(t.into_iter(), vec![(0, 0), (2, 20), (4, 40), (6, 60)]);
}
