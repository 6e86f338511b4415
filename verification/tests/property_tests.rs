use rslock::lock::{LockError, LockManager};
use rslock::node::Node;

fn endpoints(n: usize) -> Vec<String> {
    let mut v = Vec::new();
    let mut i = 0;
    while i < n {
        v.push(format!("redis://10.0.0.{}:6379", i + 1));
        i += 1;
    }
    v
}

fn empty_nodes(n: usize) -> Vec<Node> {
    let mut v = Vec::new();
    let mut i = 0;
    while i < n {
        v.push(Node::new());
        i += 1;
    }
    v
}

#[test]
fn test_quorum_formula() {
    assert_eq!(2, LockManager::new(endpoints(3)).quorum);
    assert_eq!(3, LockManager::new(endpoints(5)).quorum);
    assert_eq!(1, LockManager::new(endpoints(1)).quorum);
    assert_eq!(1, LockManager::new(endpoints(0)).quorum);
    assert_eq!(3, LockManager::new(endpoints(4)).quorum);
}

#[test]
fn test_validity_window() {
    let rl = LockManager::new(endpoints(3));
    let mut nodes = empty_nodes(3);
    let key = vec![1u8, 2, 3];
    let val = rl.get_unique_lock_id().unwrap();

    // drift for a 1000 ms TTL is 1000 / 100 + 2 = 12 ms
    let lock = rl.try_lock_at(&mut nodes, 0, 0, &key, &val, 1000).unwrap();
    assert_eq!(988, lock.validity_time);
    assert!(0 < lock.validity_time && lock.validity_time < 1000);
}

#[test]
fn test_evaluate_round_exact() {
    let rl = LockManager::new(endpoints(3));
    assert_eq!(Some(888), rl.evaluate_round(&vec![true, true, false], 1000, 100));
    assert_eq!(None, rl.evaluate_round(&vec![true, false, false], 1000, 100));
    // the whole budget was consumed by drift and elapsed time
    assert_eq!(None, rl.evaluate_round(&vec![true, true, true], 1000, 990));
}

#[test]
fn test_evaluate_round_no_nodes() {
    let rl = LockManager::new(endpoints(0));
    // quorum is 1 even for an empty node set, so no vote can ever reach it
    assert_eq!(None, rl.evaluate_round(&Vec::new(), 1000, 0));
}

#[test]
fn test_contention_and_release() {
    let a = LockManager::new(endpoints(3));
    let b = LockManager::new(endpoints(3));
    let mut nodes = empty_nodes(3);

    let key = vec![7u8; 16];
    let token_a = a.get_unique_lock_id().unwrap();
    let token_b = b.get_unique_lock_id().unwrap();

    let lock_a = a.try_lock_at(&mut nodes, 0, 10, &key, &token_a, 1000).unwrap();

    // while a holds the lock, b cannot acquire it
    match b.try_lock_at(&mut nodes, 100, 10, &key, &token_b, 1000) {
        Ok(_) => panic!("the resource was double-locked"),
        Err(e) => assert!(matches!(e, LockError::Unavailable)),
    }

    // after a releases, b acquires at once
    a.unlock_at(&mut nodes, 200, &lock_a);
    assert!(b.try_lock_at(&mut nodes, 300, 10, &key, &token_b, 1000).is_ok());
}

#[test]
fn test_extend_held_lock() {
    let a = LockManager::new(endpoints(3));
    let mut nodes = empty_nodes(3);

    let key = vec![9u8; 8];
    let token = a.get_unique_lock_id().unwrap();

    let lock = a.try_lock_at(&mut nodes, 0, 10, &key, &token, 1000).unwrap();

    // extending a currently held lock succeeds with a near-full validity
    let extended = a
        .try_extend_at(&mut nodes, 400, 20, &lock.resource, &lock.val, 1000)
        .unwrap();
    assert_eq!(968, extended.validity_time);
}

#[test]
fn test_extend_superseded_token() {
    let a = LockManager::new(endpoints(3));
    let b = LockManager::new(endpoints(3));
    let mut nodes = empty_nodes(3);

    let key = vec![4u8; 8];
    let token_a = a.get_unique_lock_id().unwrap();
    let token_b = b.get_unique_lock_id().unwrap();

    let lock_a = a.try_lock_at(&mut nodes, 0, 10, &key, &token_a, 500).unwrap();

    // the TTL lapses and another coordinator takes the resource over
    assert!(b.try_lock_at(&mut nodes, 600, 10, &key, &token_b, 1000).is_ok());

    // the superseded token cannot extend any more
    match a.try_extend_at(&mut nodes, 700, 10, &lock_a.resource, &lock_a.val, 1000) {
        Ok(_) => panic!("a superseded token extended the lock"),
        Err(e) => assert!(matches!(e, LockError::Unavailable)),
    }
}

#[test]
fn test_expiry_frees_resource() {
    let a = LockManager::new(endpoints(3));
    let b = LockManager::new(endpoints(3));
    let mut nodes = empty_nodes(3);

    let key = vec![5u8; 8];
    let token_a = a.get_unique_lock_id().unwrap();
    let token_b = b.get_unique_lock_id().unwrap();

    a.try_lock_at(&mut nodes, 0, 10, &key, &token_a, 500).unwrap();

    // before the TTL lapses the resource is taken
    assert!(b.try_lock_at(&mut nodes, 499, 10, &key, &token_b, 1000).is_err());
    // from the expiry instant on it is free again
    assert!(b.try_lock_at(&mut nodes, 500, 10, &key, &token_b, 1000).is_ok());
}

#[test]
fn test_round_trip_leaves_no_trace() {
    let a = LockManager::new(endpoints(3));
    let mut nodes = empty_nodes(3);

    let key = vec![6u8; 8];
    let token = a.get_unique_lock_id().unwrap();

    let lock = a.try_lock_at(&mut nodes, 0, 10, &key, &token, 1000).unwrap();
    let extended = a
        .try_extend_at(&mut nodes, 100, 10, &lock.resource, &lock.val, 1000)
        .unwrap();
    a.unlock_at(&mut nodes, 200, &extended);

    // a direct read at every node reports the key as absent
    for node in nodes.iter() {
        assert!(node.get(200, &key).is_none());
    }
}

#[test]
fn test_release_wrong_token_is_noop() {
    let mut node = Node::new();
    let key = vec![1u8, 2, 3, 4];
    let stored = vec![10u8; 20];
    let other = vec![11u8; 20];

    assert!(node.acquire(0, &key, &stored, 1000));

    // a mismatched token releases nothing and reports failure
    assert!(!node.release(0, &key, &other));
    assert_eq!(Some(stored.clone()), node.get(0, &key));

    // the matching token does release
    assert!(node.release(0, &key, &stored));
    assert_eq!(None, node.get(0, &key));
}

#[test]
fn test_failed_round_rolls_back() {
    let a = LockManager::new(endpoints(3));
    let b = LockManager::new(endpoints(3));
    let mut nodes = empty_nodes(3);

    let key = vec![8u8; 8];
    let token_a = a.get_unique_lock_id().unwrap();
    let token_b = b.get_unique_lock_id().unwrap();

    // a holds the resource at two of the three nodes: no quorum is left
    assert!(nodes[0].acquire(0, &key, &token_a, 1000));
    assert!(nodes[1].acquire(0, &key, &token_a, 1000));

    assert!(b.try_lock_at(&mut nodes, 100, 10, &key, &token_b, 1000).is_err());

    // the failed round rolled its partial acquisition back
    assert_eq!(None, nodes[2].get(100, &key));
    // and the holder's bindings were not disturbed
    assert_eq!(Some(token_a.clone()), nodes[0].get(100, &key));
    assert_eq!(Some(token_a.clone()), nodes[1].get(100, &key));
}

#[test]
fn test_zero_ttl_never_grants() {
    let a = LockManager::new(endpoints(3));
    let mut nodes = empty_nodes(3);
    let key = vec![3u8; 8];
    let token = a.get_unique_lock_id().unwrap();

    assert!(a.try_lock_at(&mut nodes, 0, 0, &key, &token, 0).is_err());
    for node in nodes.iter() {
        assert_eq!(None, node.get(0, &key));
    }
}

#[test]
fn test_acquire_after_node_expiry() {
    let mut node = Node::new();
    let key = vec![2u8; 4];
    let first = vec![20u8; 20];
    let second = vec![21u8; 20];

    assert!(node.acquire(0, &key, &first, 100));
    // while the binding is live a second acquisition is refused
    assert!(!node.acquire(50, &key, &second, 100));
    // once it lapsed the key can be taken over
    assert!(node.acquire(200, &key, &second, 100));
    assert_eq!(Some(second.clone()), node.get(250, &key));
}

#[test]
fn test_extend_wrong_token_at_node() {
    let mut node = Node::new();
    let key = vec![12u8; 4];
    let stored = vec![30u8; 20];
    let other = vec![31u8; 20];

    assert!(node.acquire(0, &key, &stored, 100));
    assert!(!node.extend(10, &key, &other, 100));
    // the expiry was not refreshed by the failed extension
    assert_eq!(None, node.get(100, &key));
}
