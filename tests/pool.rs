use std::sync::Arc;

use mempool::pool::Pool;
use mempool::transaction::Transaction;
use mempool::transaction::TxId;

fn tx(id: TxId, deps: Vec<TxId>) -> Transaction {
    Transaction::new(id, deps)
}

fn executable_ids(p: &Pool) -> Vec<TxId> {
    let mut ids: Vec<TxId> = p.executable().iter().map(|t| t.id).collect();
    ids.sort();
    ids
}

#[test]
fn empty_pool_has_nothing_executable() {
    let p = Pool::new();
    assert!(p.executable().is_empty());
    assert_eq!(p.len(), 0);
    let d = Pool::default();
    assert!(d.executable().is_empty());
}

#[test]
fn no_dependency_transaction_is_executable() {
    let mut p = Pool::new();
    p.insert(tx(7, vec![]));
    let r = p.executable();
    assert_eq!(r.len(), 1);
    assert_eq!(r[0].id, 7);
    assert!(r[0].dependencies.is_empty());
}

#[test]
fn tracked_dependency_blocks_dependent() {
    let mut p = Pool::new();
    p.insert(tx(1, vec![]));
    p.insert(tx(2, vec![1]));
    assert_eq!(executable_ids(&p), vec![1]);
}

#[test]
fn reinsertion_keeps_latest_payload_and_both_index_entries() {
    let mut p = Pool::new();
    p.insert(tx(5, vec![10]));
    p.insert(tx(5, vec![20]));
    assert_eq!(p.len(), 1);
    let t = p.get(5).unwrap();
    assert_eq!(t.id, 5);
    assert_eq!(t.dependencies, vec![20]);
    assert!(p.has_dependent(10, 5));
    assert!(p.has_dependent(20, 5));
}

#[test]
fn insertion_order_does_not_change_snapshot() {
    let mut ab = Pool::new();
    ab.insert(tx(1, vec![]));
    ab.insert(tx(2, vec![1]));
    let mut ba = Pool::new();
    ba.insert(tx(2, vec![1]));
    ba.insert(tx(1, vec![]));
    assert_eq!(executable_ids(&ab), vec![1]);
    assert_eq!(executable_ids(&ba), vec![1]);
}

#[test]
fn dependent_is_executable_before_its_dependency_arrives() {
    let mut p = Pool::new();
    p.insert(tx(2, vec![1]));
    assert_eq!(executable_ids(&p), vec![2]);
    p.insert(tx(1, vec![]));
    assert_eq!(executable_ids(&p), vec![1]);
}

#[test]
fn concurrent_inserts_lose_nothing() {
    let n: u128 = 64;
    let pool = Arc::new(tokio::sync::RwLock::new(Pool::new()));
    let rt = tokio::runtime::Builder::new_multi_thread().worker_threads(4).build().unwrap();
    rt.block_on(async {
        let mut handles = Vec::new();
        for id in 0..n {
            let shared = Arc::clone(&pool);
            handles.push(tokio::spawn(async move {
                shared.write().await.insert(tx(id, vec![]));
            }));
        }
        for h in handles {
            h.await.unwrap();
        }
    });
    let p = rt.block_on(async { pool.read().await.executable() });
    let mut ids: Vec<TxId> = p.iter().map(|t| t.id).collect();
    ids.sort();
    assert_eq!(ids, (0..n).collect::<Vec<TxId>>());
    let len = rt.block_on(async { pool.read().await.len() });
    assert_eq!(len, n as usize);
}

#[test]
fn self_dependency_is_never_executable() {
    let mut p = Pool::new();
    p.insert(tx(3, vec![3]));
    assert!(p.executable().is_empty());
    p.insert(tx(4, vec![]));
    assert_eq!(executable_ids(&p), vec![4]);
}

#[test]
fn chain_leaves_only_head_executable() {
    let mut p = Pool::new();
    p.insert(tx(1, vec![]));
    p.insert(tx(2, vec![1]));
    p.insert(tx(3, vec![2]));
    assert_eq!(executable_ids(&p), vec![1]);
}

#[test]
fn unknown_dependency_counts_as_satisfied() {
    let mut p = Pool::new();
    p.insert(tx(9, vec![1000, 2000]));
    assert_eq!(executable_ids(&p), vec![9]);
    assert!(p.has_dependent(1000, 9));
    assert!(p.has_dependent(2000, 9));
    assert!(!p.has_dependent(9, 1000));
}

#[test]
fn one_tracked_dependency_among_many_blocks() {
    let mut p = Pool::new();
    p.insert(tx(1, vec![]));
    p.insert(tx(2, vec![100, 1, 200]));
    assert_eq!(executable_ids(&p), vec![1]);
}

#[test]
fn largest_ids_are_handled() {
    let mut p = Pool::new();
    p.insert(tx(u128::MAX, vec![0]));
    p.insert(tx(0, vec![]));
    assert_eq!(executable_ids(&p), vec![0]);
    assert!(p.contains(u128::MAX));
    assert!(p.has_dependent(0, u128::MAX));
}

#[test]
fn get_and_contains_report_tracked_entries() {
    let mut p = Pool::new();
    assert!(p.get(1).is_none());
    assert!(!p.contains(1));
    p.insert(tx(1, vec![2, 3]));
    assert!(p.contains(1));
    let t = p.get(1).unwrap();
    assert_eq!(t.dependencies, vec![2, 3]);
    let c = t.duplicate();
    assert_eq!(c.id, 1);
    assert_eq!(c.dependencies, vec![2, 3]);
}

#[test]
fn executable_returns_copies_with_payload() {
    let mut p = Pool::new();
    p.insert(tx(1, vec![50, 60]));
    p.insert(tx(2, vec![]));
    let mut r = p.executable();
    r.sort_by_key(|t| t.id);
    assert_eq!(r.len(), 2);
    assert_eq!(r[0].dependencies, vec![50, 60]);
    assert!(r[1].dependencies.is_empty());
    assert_eq!(p.len(), 2);
}
