use ddp_node::ranking::{key_less, stable_order};

#[test]
fn stable_order_of_nothing() {
    assert_eq!(stable_order(&vec![]), Vec::<usize>::new());
}

#[test]
fn stable_order_sorts_by_first_part() {
    let keys = vec![(3, 0), (1, 0), (2, 0)];
    assert_eq!(stable_order(&keys), vec![1, 2, 0]);
}

#[test]
fn stable_order_breaks_ties_by_second_part() {
    let keys = vec![(1, 9), (1, 3), (0, 100), (1, 5)];
    assert_eq!(stable_order(&keys), vec![2, 1, 3, 0]);
}

#[test]
fn stable_order_keeps_equal_keys_in_place() {
    let keys = vec![(1, 1), (0, 0), (1, 1), (0, 0), (1, 1)];
    assert_eq!(stable_order(&keys), vec![1, 3, 0, 2, 4]);
}

#[test]
fn stable_order_is_a_permutation() {
    let keys: Vec<(u64, u128)> = (0..200u64).map(|i| ((i * 7919) % 13, ((i * 31) % 5) as u128)).collect();
    let order = stable_order(&keys);
    let mut seen = vec![false; keys.len()];
    for &i in &order {
        assert!(!seen[i]);
        seen[i] = true;
    }
    assert!(seen.iter().all(|&s| s));
    for pair in order.windows(2) {
        let (a, b) = (pair[0], pair[1]);
        assert!(keys[a] < keys[b] || (keys[a] == keys[b] && a < b));
    }
}

#[test]
fn key_less_is_lexicographic() {
    assert!(key_less((0, 5), (1, 0)));
    assert!(key_less((1, 0), (1, 1)));
    assert!(!key_less((1, 1), (1, 1)));
    assert!(!key_less((2, 0), (1, 9)));
}
