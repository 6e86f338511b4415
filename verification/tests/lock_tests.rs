use rslock::lock::{Lock, LockError, LockGuard, LockManager};
use rslock::node::Node;

fn is_normal<T: Sized + Send + Sync + Unpin>() {}

fn addresses(n: usize) -> Vec<String> {
    let mut v = Vec::new();
    let mut i = 0;
    while i < n {
        v.push(format!("redis://127.0.0.1:{}", 6379 + i));
        i += 1;
    }
    v
}

fn fresh_nodes(n: usize) -> Vec<Node> {
    let mut v = Vec::new();
    let mut i = 0;
    while i < n {
        v.push(Node::new());
        i += 1;
    }
    v
}

#[test]
fn test_is_normal() {
    is_normal::<LockManager>();
    is_normal::<LockError>();
    is_normal::<Lock>();
    is_normal::<LockGuard>();
}

#[test]
fn test_lock_get_unique_id() {
    let rl = LockManager::new(Vec::<String>::new());
    assert_eq!(rl.get_unique_lock_id().unwrap().len(), 20);
}

#[test]
fn test_lock_get_unique_id_uniqueness() {
    let rl = LockManager::new(Vec::<String>::new());

    let id1 = rl.get_unique_lock_id().unwrap();
    let id2 = rl.get_unique_lock_id().unwrap();

    assert_eq!(20, id1.len());
    assert_eq!(20, id2.len());
    assert_ne!(id1, id2);
}

#[test]
fn test_lock_valid_instance() {
    let rl = LockManager::new(addresses(3));
    assert_eq!(3, rl.servers.len());
    assert_eq!(2, rl.quorum);
}

#[test]
fn test_lock_direct_unlock_fails() {
    let rl = LockManager::new(addresses(3));
    let key = rl.get_unique_lock_id().unwrap();
    let val = rl.get_unique_lock_id().unwrap();

    let mut node = Node::new();
    assert!(!node.release(0, &key, &val));
}

#[test]
fn test_lock_direct_unlock_succeeds() {
    let rl = LockManager::new(addresses(3));
    let key = rl.get_unique_lock_id().unwrap();
    let val = rl.get_unique_lock_id().unwrap();

    let mut node = Node::new();
    assert!(node.acquire(0, &key, &val, 1000));
    assert!(node.release(0, &key, &val));
}

#[test]
fn test_lock_direct_lock_succeeds() {
    let rl = LockManager::new(addresses(3));
    let key = rl.get_unique_lock_id().unwrap();
    let val = rl.get_unique_lock_id().unwrap();

    let mut node = Node::new();
    assert!(node.acquire(0, &key, &val, 1000));
}

#[test]
fn test_lock_unlock() {
    let rl = LockManager::new(addresses(3));
    let key = rl.get_unique_lock_id().unwrap();
    let val = rl.get_unique_lock_id().unwrap();

    let mut nodes = fresh_nodes(3);
    assert!(nodes[0].acquire(0, &key, &val, 1000));

    let lock = Lock { resource: key.clone(), val, validity_time: 0 };
    rl.unlock_at(&mut nodes, 0, &lock);
    for node in nodes.iter() {
        assert!(node.get(0, &key).is_none());
    }
}

#[test]
fn test_lock_lock() {
    let rl = LockManager::new(addresses(3));
    let mut nodes = fresh_nodes(3);

    let key = rl.get_unique_lock_id().unwrap();
    let val = rl.get_unique_lock_id().unwrap();
    match rl.try_lock_at(&mut nodes, 0, 50, &key, &val, 1000) {
        Ok(lock) => {
            assert_eq!(key, lock.resource);
            assert_eq!(20, lock.val.len());
            assert!(lock.validity_time > 900, "validity time: {}", lock.validity_time);
        }
        Err(_) => panic!("lock could not be acquired"),
    }
}

#[test]
fn test_lock_lock_unlock() {
    let rl = LockManager::new(addresses(3));
    let rl2 = LockManager::new(addresses(3));
    let mut nodes = fresh_nodes(3);

    let key = rl.get_unique_lock_id().unwrap();
    let val = rl.get_unique_lock_id().unwrap();
    let val2 = rl2.get_unique_lock_id().unwrap();

    let lock = rl.try_lock_at(&mut nodes, 0, 20, &key, &val, 1000).unwrap();
    assert!(lock.validity_time > 900, "validity time: {}", lock.validity_time);

    if rl2.try_lock_at(&mut nodes, 10, 20, &key, &val2, 1000).is_ok() {
        panic!("Lock acquired, even though it should be locked")
    }

    rl.unlock_at(&mut nodes, 20, &lock);

    match rl2.try_lock_at(&mut nodes, 30, 20, &key, &val2, 1000) {
        Ok(l) => assert!(l.validity_time > 900),
        Err(_) => panic!("Lock couldn't be acquired"),
    }
}

#[test]
fn test_lock_lock_unlock_raii() {
    let rl = LockManager::new(addresses(3));
    let rl2 = LockManager::new(addresses(3));
    let mut nodes = fresh_nodes(3);

    let key = rl.get_unique_lock_id().unwrap();
    let val = rl.get_unique_lock_id().unwrap();
    let val2 = rl2.get_unique_lock_id().unwrap();

    {
        let guard = LockGuard { lock: rl.try_lock_at(&mut nodes, 0, 20, &key, &val, 1000).unwrap() };
        assert!(
            guard.lock.validity_time > 900,
            "validity time: {}",
            guard.lock.validity_time
        );

        if rl2.try_lock_at(&mut nodes, 10, 20, &key, &val2, 1000).is_ok() {
            panic!("Lock acquired, even though it should be locked")
        }

        // the guard's scope ends: release its lock exactly once
        rl.unlock_at(&mut nodes, 20, &guard.lock);
    }

    match rl2.try_lock_at(&mut nodes, 30, 20, &key, &val2, 1000) {
        Ok(l) => assert!(l.validity_time > 900),
        Err(_) => panic!("Lock couldn't be acquired"),
    }
}

#[test]
fn test_lock_extend_lock() {
    let rl1 = LockManager::new(addresses(3));
    let rl2 = LockManager::new(addresses(3));
    let mut nodes = fresh_nodes(3);

    let key = rl1.get_unique_lock_id().unwrap();
    let val1 = rl1.get_unique_lock_id().unwrap();
    let val2 = rl2.get_unique_lock_id().unwrap();

    let lock1 = rl1.try_lock_at(&mut nodes, 0, 20, &key, &val1, 1000).unwrap();

    // half the TTL later, extend for a fresh TTL
    let extended = rl1
        .try_extend_at(&mut nodes, 500, 20, &lock1.resource, &lock1.val, 1000)
        .unwrap();
    assert!(extended.validity_time > 900);

    // another half TTL later the extension still protects the resource
    if rl2.try_lock_at(&mut nodes, 1000, 20, &key, &val2, 1000).is_ok() {
        panic!("Expected an error when extending the lock but didn't receive one")
    }
}

#[test]
fn test_lock_extend_lock_releases() {
    let rl1 = LockManager::new(addresses(3));
    let rl2 = LockManager::new(addresses(3));
    let mut nodes = fresh_nodes(3);

    let key = rl1.get_unique_lock_id().unwrap();
    let val1 = rl1.get_unique_lock_id().unwrap();
    let val2 = rl2.get_unique_lock_id().unwrap();

    // create a 500 ms lock and immediately extend it by 500 ms
    let lock1 = rl1.try_lock_at(&mut nodes, 0, 20, &key, &val1, 500).unwrap();
    rl1.try_extend_at(&mut nodes, 100, 20, &lock1.resource, &lock1.val, 500)
        .unwrap();

    // a second later the extension has lapsed: the resource is free again
    if rl2.try_lock_at(&mut nodes, 1100, 20, &key, &val2, 1000).is_err() {
        panic!("Unexpected error when trying to claim free lock after extend expired")
    }

    // and the first coordinator's token has been superseded
    if rl1
        .try_extend_at(&mut nodes, 1150, 20, &lock1.resource, &lock1.val, 1000)
        .is_ok()
    {
        panic!("Did not expect OK() when re-extending rl1")
    }
}

#[test]
fn test_set_retry() {
    let mut rl = LockManager::new(addresses(3));
    assert_eq!(3, rl.retry_count);
    assert_eq!(200, rl.retry_delay);
    rl.set_retry(5, 100);
    assert_eq!(5, rl.retry_count);
    assert_eq!(100, rl.retry_delay);
    assert_eq!(2, rl.quorum);
}

#[test]
fn test_backoff_jitter_below_bound() {
    let mut rl = LockManager::new(addresses(3));
    for _ in 0..50 {
        assert!(rl.backoff_jitter() < 200);
    }
    rl.set_retry(3, 1);
    assert_eq!(0, rl.backoff_jitter());
    rl.set_retry(3, 0);
    assert_eq!(0, rl.backoff_jitter());
}
