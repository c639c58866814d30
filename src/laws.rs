//! Properties of the pool that relate several operations.

use vstd::prelude::*;
use crate::pool::PoolView;
use crate::pool::empty_pool;
use crate::pool::executable_ids;
use crate::pool::inserted;
use crate::pool::ready;
use crate::transaction::TxId;
use crate::transaction::TxView;

verus! {

/// The pool after inserting each of `ts`, first to last.
pub open spec fn inserted_all(p: PoolView, ts: Seq<TxView>) -> PoolView
    decreases ts.len(),
{
    if ts.len() == 0 {
        p
    } else {
        inserted(inserted_all(p, ts.drop_last()), ts.last())
    }
}

/// A transaction inserted with no dependencies is executable right after.
pub proof fn lemma_no_deps_executable(p: PoolView, t: TxView)
    requires
        t.deps.len() == 0,
    ensures
        executable_ids(inserted(p, t).transactions).contains(t.id),
{
    let txs = inserted(p, t).transactions;
    assert(ready(txs, t.id));
}

/// With `a` free of dependencies and `b` depending on `a`, inserting both
/// into an empty pool leaves exactly `a` executable.
pub proof fn lemma_tracked_dependency_blocks(a: TxView, b: TxView)
    requires
        a.id != b.id,
        a.deps == Seq::<TxId>::empty(),
        b.deps == seq![a.id],
    ensures
        executable_ids(inserted(inserted(empty_pool(), a), b).transactions) == set![a.id],
{
    let txs = inserted(inserted(empty_pool(), a), b).transactions;
    assert(ready(txs, a.id));
    assert(txs[b.id][0] == a.id);
    assert(!ready(txs, b.id));
    assert(executable_ids(txs) =~= set![a.id]);
}

/// Inserting the same id twice keeps the later dependencies in the table,
/// while the reverse index keeps the entries of both insertions.
pub proof fn lemma_reinsert_last_writer_wins(p: PoolView, first: TxView, second: TxView)
    requires
        first.id == second.id,
    ensures
        ({
            let q = inserted(inserted(p, first), second);
            &&& q.transactions == p.transactions.insert(second.id, second.deps)
            &&& forall|d: TxId|
                first.deps.contains(d) || second.deps.contains(d) ==> #[trigger] q.dependents.contains_key(d)
                    && q.dependents[d].contains(first.id)
        }),
{
    let q = inserted(inserted(p, first), second);
    assert(q.transactions =~= p.transactions.insert(second.id, second.deps));
}

/// Inserting two transactions with distinct ids gives the same pool in
/// either order, so the same executable set.
pub proof fn lemma_insert_order_irrelevant(p: PoolView, a: TxView, b: TxView)
    requires
        a.id != b.id,
    ensures
        inserted(inserted(p, a), b) == inserted(inserted(p, b), a),
        executable_ids(inserted(inserted(p, a), b).transactions) == executable_ids(
            inserted(inserted(p, b), a).transactions,
        ),
{
    let ab = inserted(inserted(p, a), b);
    let ba = inserted(inserted(p, b), a);
    assert(ab.transactions =~= ba.transactions);
    assert forall|k: TxId| #[trigger] ab.dependents.contains_key(k) implies ab.dependents[k]
        =~= ba.dependents[k] by {}
    assert(ab.dependents =~= ba.dependents);
}

/// After any sequence of insertions of transactions without dependencies,
/// every one of them is tracked, with no dependencies, and executable: none
/// is lost.
pub proof fn lemma_independent_inserts_all_executable(p: PoolView, ts: Seq<TxView>)
    requires
        forall|i: int| 0 <= i < ts.len() ==> (#[trigger] ts[i]).deps.len() == 0,
    ensures
        forall|i: int|
            0 <= i < ts.len() ==> executable_ids(inserted_all(p, ts).transactions).contains(
                #[trigger] ts[i].id,
            ) && inserted_all(p, ts).transactions[ts[i].id].len() == 0,
    decreases ts.len(),
{
    if ts.len() > 0 {
        let init = ts.drop_last();
        assert forall|i: int| 0 <= i < init.len() implies (#[trigger] init[i]).deps.len() == 0 by {
            assert(init[i] == ts[i]);
        }
        lemma_independent_inserts_all_executable(p, init);
        let before = inserted_all(p, init).transactions;
        let txs = inserted_all(p, ts).transactions;
        assert forall|i: int| 0 <= i < ts.len() implies executable_ids(txs).contains(
            #[trigger] ts[i].id,
        ) && txs[ts[i].id].len() == 0 by {
            let id = ts[i].id;
            if i < ts.len() - 1 && id != ts.last().id {
                assert(init[i] == ts[i]);
                assert(executable_ids(before).contains(id));
                assert(txs[id] == before[id]);
                assert(before[id].len() == 0);
            }
            assert(txs[id].len() == 0);
            assert(ready(txs, id));
        }
    }
}

/// A transaction whose dependencies hold its own id is never executable
/// while it is tracked with them; in particular not right after insertion.
pub proof fn lemma_self_dependency_never_executable(
    txs: Map<TxId, Seq<TxId>>,
    p: PoolView,
    t: TxView,
)
    requires
        t.deps.contains(t.id),
    ensures
        txs.contains_key(t.id) && txs[t.id] == t.deps ==> !executable_ids(txs).contains(t.id),
        !executable_ids(inserted(p, t).transactions).contains(t.id),
{
    let j = choose|j: int| 0 <= j < t.deps.len() && t.deps[j] == t.id;
    let after = inserted(p, t).transactions;
    assert(after[t.id][j] == t.id);
    if txs.contains_key(t.id) && txs[t.id] == t.deps {
        assert(txs[t.id][j] == t.id);
    }
}

} // verus!
