use gamba::order::{key_order, stable_order, stable_order_merged};
use std::cmp::Ordering;

#[test]
fn stable_order_lists_positions_by_key() {
    assert_eq!(stable_order(&vec![30, 10, 20]), vec![1, 2, 0]);
    assert_eq!(stable_order(&vec![1, 2, 3]), vec![0, 1, 2]);
    assert_eq!(stable_order(&vec![3, 2, 1]), vec![2, 1, 0]);
}

#[test]
fn stable_order_keeps_equal_keys_in_place() {
    assert_eq!(stable_order(&vec![3, 1, 2, 1]), vec![1, 3, 2, 0]);
    assert_eq!(stable_order(&vec![7, 7, 7]), vec![0, 1, 2]);
    assert_eq!(stable_order(&vec![5, 0, 5, 0, 5]), vec![1, 3, 0, 2, 4]);
}

#[test]
fn stable_order_of_nothing_is_empty() {
    assert_eq!(stable_order(&Vec::new()), Vec::<usize>::new());
    assert_eq!(stable_order_merged(&Vec::new()), Vec::<usize>::new());
    assert_eq!(stable_order(&vec![9]), vec![0]);
    assert_eq!(stable_order_merged(&vec![9]), vec![0]);
}

#[test]
fn merged_order_lists_positions_by_key() {
    assert_eq!(stable_order_merged(&vec![30, 10, 20]), vec![1, 2, 0]);
    assert_eq!(stable_order_merged(&vec![3, 2, 1]), vec![2, 1, 0]);
    assert_eq!(stable_order_merged(&vec![u64::MAX, 0]), vec![1, 0]);
}

#[test]
fn merged_order_keeps_equal_keys_in_place() {
    assert_eq!(stable_order_merged(&vec![3, 1, 2, 1]), vec![1, 3, 2, 0]);
    assert_eq!(stable_order_merged(&vec![5, 0, 5, 0, 5]), vec![1, 3, 0, 2, 4]);
}

#[test]
fn both_orders_agree_on_a_long_run() {
    let mut keys: Vec<u64> = Vec::new();
    let mut x: u64 = 12345;
    for _ in 0..500 {
        x = x.wrapping_mul(6364136223846793005).wrapping_add(1442695040888963407);
        keys.push((x >> 33) % 40);
    }
    let order = stable_order(&keys);
    assert_eq!(order, stable_order_merged(&keys));
    for w in order.windows(2) {
        let (a, b) = (w[0], w[1]);
        assert!(keys[a] < keys[b] || (keys[a] == keys[b] && a < b));
    }
}

#[test]
fn key_order_is_three_way() {
    assert_eq!(key_order(1, 2), Ordering::Less);
    assert_eq!(key_order(2, 2), Ordering::Equal);
    assert_eq!(key_order(3, 2), Ordering::Greater);
}
