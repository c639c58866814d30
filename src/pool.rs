use vstd::prelude::*;
use std::collections::HashMap;
use std::collections::HashSet;
use crate::transaction::Transaction;
use crate::transaction::TxId;
use crate::transaction::TxView;
use vstd::std_specs::hash::spec_keys_iter;
use vstd::std_specs::iter::IteratorSpec;

verus! {

broadcast use vstd::std_specs::hash::group_hash_axioms;

/// Mathematical model of a pool.
///
/// `transactions` maps each tracked id to the dependencies of the transaction
/// stored under it; `dependents` maps a dependency id to the ids of every
/// transaction that ever declared it.
pub struct PoolView {
    pub transactions: Map<TxId, Seq<TxId>>,
    pub dependents: Map<TxId, Set<TxId>>,
}

/// The pool with no transaction and an empty reverse index.
pub open spec fn empty_pool() -> PoolView {
    PoolView { transactions: Map::empty(), dependents: Map::empty() }
}

/// The reverse index after transaction `id` declared the dependencies `deps`:
/// each of them gains `id` among its dependents; nothing is removed.
pub open spec fn add_dependents(
    index: Map<TxId, Set<TxId>>,
    deps: Seq<TxId>,
    id: TxId,
) -> Map<TxId, Set<TxId>> {
    Map::new(
        |k: TxId| index.contains_key(k) || deps.contains(k),
        |k: TxId|
            if deps.contains(k) {
                (if index.contains_key(k) { index[k] } else { Set::empty() }).insert(id)
            } else {
                index[k]
            },
    )
}

/// The pool after inserting `t`: the table holds `t` under its id, replacing
/// any earlier entry, and the reverse index records `t` under each dependency.
pub open spec fn inserted(p: PoolView, t: TxView) -> PoolView {
    PoolView {
        transactions: p.transactions.insert(t.id, t.deps),
        dependents: add_dependents(p.dependents, t.deps, t.id),
    }
}

/// Transaction `id` is tracked and none of its dependencies is tracked.
pub open spec fn ready(txs: Map<TxId, Seq<TxId>>, id: TxId) -> bool {
    &&& txs.contains_key(id)
    &&& forall|j: int| 0 <= j < txs[id].len() ==> !txs.contains_key(#[trigger] txs[id][j])
}

/// The ids of every executable transaction of the table.
pub open spec fn executable_ids(txs: Map<TxId, Seq<TxId>>) -> Set<TxId> {
    txs.dom().filter(|id: TxId| ready(txs, id))
}

/// `s` lists each executable transaction of `txs` once, as stored, in some order.
pub open spec fn lists_executable(s: Seq<TxView>, txs: Map<TxId, Seq<TxId>>) -> bool {
    &&& forall|i: int|
        0 <= i < s.len() ==> #[trigger] ready(txs, s[i].id) && s[i].deps == txs[s[i].id]
    &&& forall|id: TxId|
        #[trigger] executable_ids(txs).contains(id) ==> exists|i: int|
            0 <= i < s.len() && s[i].id == id
    &&& forall|i: int, j: int| 0 <= i < j < s.len() ==> s[i].id != s[j].id
}

/// A pool of pending transactions with a reverse dependency index.
pub struct Pool {
    transactions: HashMap<TxId, Transaction>,
    dependents: HashMap<TxId, HashSet<TxId>>,
}

impl View for Pool {
    type V = PoolView;

    closed spec fn view(&self) -> PoolView {
        PoolView {
            transactions: Map::new(
                |k: TxId| self.transactions@.contains_key(k),
                |k: TxId| self.transactions@[k].dependencies@,
            ),
            dependents: Map::new(
                |k: TxId| self.dependents@.contains_key(k),
                |k: TxId| self.dependents@[k]@,
            ),
        }
    }
}

impl Default for Pool {
    fn default() -> (r: Pool)
        ensures
            r.wf(),
            r@ == empty_pool(),
    {
        Pool::new()
    }
}

impl Pool {
    /// Every stored transaction sits under its own id.
    pub closed spec fn wf(&self) -> bool {
        forall|k: TxId| #[trigger]
            self.transactions@.contains_key(k) ==> self.transactions@[k].id == k
    }

    /// Creates an empty pool.
    pub fn new() -> (r: Pool)
        ensures
            r.wf(),
            r@ == empty_pool(),
    {
        let r = Pool { transactions: HashMap::new(), dependents: HashMap::new() };
        proof {
            assert(r@.transactions =~= Map::empty());
            assert(r@.dependents =~= Map::empty());
        }
        r
    }

    /// Records `id` as a dependent of `dep` in the reverse index.
    fn add_dependent(&mut self, dep: TxId, id: TxId)
        requires
            old(self).wf(),
        ensures
            final(self).wf(),
            final(self)@.transactions == old(self)@.transactions,
            final(self)@.dependents == old(self)@.dependents.insert(
                dep,
                (if old(self)@.dependents.contains_key(dep) {
                    old(self)@.dependents[dep]
                } else {
                    Set::empty()
                }).insert(id),
            ),
    {
        let mut set = match self.dependents.remove(&dep) {
            Some(s) => s,
            None => HashSet::new(),
        };
        set.insert(id);
        self.dependents.insert(dep, set);
        proof {
            assert(self@.dependents =~= old(self)@.dependents.insert(
                dep,
                (if old(self)@.dependents.contains_key(dep) {
                    old(self)@.dependents[dep]
                } else {
                    Set::empty()
                }).insert(id),
            ));
            assert(self@.transactions =~= old(self)@.transactions);
        }
    }

    /// Inserts `t`, replacing any transaction stored under the same id, and
    /// records it as a dependent of each of its dependencies.
    pub fn insert(&mut self, t: Transaction)
        requires
            old(self).wf(),
        ensures
            final(self).wf(),
            final(self)@ == inserted(old(self)@, t@),
    {
        let id = t.id;
        let n = t.dependencies.len();
        let mut i: usize = 0;
        while i < n
            invariant
                self.wf(),
                n == t.dependencies@.len(),
                i <= n,
                self@.transactions == old(self)@.transactions,
                self@.dependents == add_dependents(
                    old(self)@.dependents,
                    t.dependencies@.subrange(0, i as int),
                    id,
                ),
            decreases n - i,
        {
            let dep = t.dependencies[i];
            self.add_dependent(dep, id);
            proof {
                let before = t.dependencies@.subrange(0, i as int);
                let after = t.dependencies@.subrange(0, i + 1);
                assert(after =~= before.push(dep));
                assert forall|k: TxId| after.contains(k) <==> before.contains(k) || k == dep by {
                    if after.contains(k) && k != dep {
                        let j = choose|j: int| 0 <= j < after.len() && after[j] == k;
                        assert(before[j] == k);
                    }
                    if before.contains(k) {
                        let j = choose|j: int| 0 <= j < before.len() && before[j] == k;
                        assert(after[j] == k);
                    }
                    if k == dep {
                        assert(after[i as int] == k);
                    }
                }
                let prev = add_dependents(old(self)@.dependents, before, id);
                let base = if old(self)@.dependents.contains_key(dep) {
                    old(self)@.dependents[dep]
                } else {
                    Set::<TxId>::empty()
                };
                if before.contains(dep) {
                    assert(prev[dep].insert(id) =~= base.insert(id));
                }
                assert(self@.dependents =~= add_dependents(old(self)@.dependents, after, id));
            }
            i = i + 1;
        }
        proof {
            assert(t.dependencies@.subrange(0, n as int) =~= t.dependencies@);
        }
        let ghost deps = t.dependencies@;
        self.transactions.insert(id, t);
        proof {
            assert(self@.transactions =~= old(self)@.transactions.insert(id, deps));
        }
    }

    /// Whether none of the dependencies of `t` is tracked in the table.
    fn deps_absent(&self, t: &Transaction) -> (r: bool)
        ensures
            r == forall|j: int|
                0 <= j < t.dependencies@.len() ==> !self@.transactions.contains_key(
                    #[trigger] t.dependencies@[j],
                ),
    {
        let n = t.dependencies.len();
        let mut i: usize = 0;
        while i < n
            invariant
                n == t.dependencies@.len(),
                i <= n,
                forall|j: int|
                    0 <= j < i ==> !self@.transactions.contains_key(#[trigger] t.dependencies@[j]),
            decreases n - i,
        {
            if self.transactions.contains_key(&t.dependencies[i]) {
                return false;
            }
            i = i + 1;
        }
        true
    }

    /// Returns a copy of every transaction of the table none of whose
    /// dependencies is itself tracked, each once, in no particular order.
    pub fn executable(&self) -> (r: Vec<Transaction>)
        requires
            self.wf(),
        ensures
            lists_executable(crate::transaction::views(r@), self@.transactions),
    {
        let ghost txs = self@.transactions;
        let mut r: Vec<Transaction> = Vec::new();
        // `pos[i]` is the position among the keys at which `r[i]` was found
        let ghost mut pos: Seq<int> = Seq::empty();
        let ghost keys = spec_keys_iter(&self.transactions).remaining();
        for k in it: self.transactions.keys()
            invariant
                self.wf(),
                txs == self@.transactions,
                it.seq() == keys,
                pos.len() == r.len(),
                keys.no_duplicates(),
                forall|i: int|
                    0 <= i < r.len() ==> ready(txs, #[trigger] r@[i]@.id) && r@[i]@.deps
                        == txs[r@[i]@.id],
                forall|i: int| 0 <= i < r.len() ==> 0 <= #[trigger] pos[i] < it.index(),
                forall|i: int| 0 <= i < r.len() ==> *keys[#[trigger] pos[i]] == r@[i]@.id,
                forall|j: int|
                    0 <= j < it.index() && ready(txs, *it.seq()[j]) ==> exists|i: int|
                        0 <= i < r.len() && r@[i]@.id == *it.seq()[j],
                forall|a: int, b: int| 0 <= a < b < r.len() ==> r@[a]@.id != r@[b]@.id,
        {
            let ghost j0 = it.index();
            let ghost r0 = r@;
            let t = self.transactions.get(k).unwrap();
            if self.deps_absent(t) {
                r.push(t.duplicate());
                proof {
                    pos = pos.push(j0);
                    assert forall|a: int, b: int| 0 <= a < b < r.len() implies r@[a]@.id
                        != r@[b]@.id by {
                        if b == r.len() - 1 {
                            assert(r@[a] == r0[a]);
                            assert(pos[a] != j0);
                        }
                    }
                }
            }
            proof {
                assert forall|j: int|
                    0 <= j <= j0 && ready(txs, *it.seq()[j]) implies exists|i: int|
                        0 <= i < r.len() && r@[i]@.id == *it.seq()[j] by {
                    if j < j0 {
                        let i = choose|i: int| 0 <= i < r0.len() && r0[i]@.id == *it.seq()[j];
                        assert(r@[i] == r0[i]);
                    } else {
                        assert(r@[r.len() - 1]@.id == *it.seq()[j]);
                    }
                }
            }
        }
        proof {
            assert forall|id: TxId| #[trigger] executable_ids(txs).contains(id) implies exists|i: int|
                0 <= i < r.len() && r@[i]@.id == id by {
                assert(keys.unref().to_set().contains(id));
                let j = choose|j: int| 0 <= j < keys.len() && *keys[j] == id;
                assert(ready(txs, *keys[j]));
            }
            let v = crate::transaction::views(r@);
            assert forall|i: int| 0 <= i < v.len() implies #[trigger] ready(txs, v[i].id)
                && v[i].deps == txs[v[i].id] by {
                assert(v[i] == r@[i]@);
            }
            assert forall|a: int, b: int| 0 <= a < b < v.len() implies v[a].id != v[b].id by {
                assert(v[a] == r@[a]@);
                assert(v[b] == r@[b]@);
            }
            assert forall|id: TxId| #[trigger] executable_ids(txs).contains(id) implies exists|i: int|
                0 <= i < v.len() && v[i].id == id by {
                let i = choose|i: int| 0 <= i < r.len() && r@[i]@.id == id;
                assert(v[i] == r@[i]@);
            }
        }
        r
    }

    /// Whether a transaction is tracked under `id`.
    pub fn contains(&self, id: TxId) -> (r: bool)
        ensures
            r == self@.transactions.contains_key(id),
    {
        self.transactions.contains_key(&id)
    }

    /// A copy of the transaction tracked under `id`, if any.
    pub fn get(&self, id: TxId) -> (r: Option<Transaction>)
        requires
            self.wf(),
        ensures
            r is Some <==> self@.transactions.contains_key(id),
            r matches Some(t) ==> t@ == (TxView { id, deps: self@.transactions[id] }),
    {
        match self.transactions.get(&id) {
            Some(t) => Some(t.duplicate()),
            None => None,
        }
    }

    /// The number of tracked transactions.
    pub fn len(&self) -> (r: usize)
        ensures
            r == self@.transactions.len(),
    {
        proof {
            assert(self@.transactions.dom() =~= self.transactions@.dom());
        }
        self.transactions.len()
    }

    /// Whether the reverse index records `id` as a dependent of `dep`.
    pub fn has_dependent(&self, dep: TxId, id: TxId) -> (r: bool)
        ensures
            r == (self@.dependents.contains_key(dep) && self@.dependents[dep].contains(id)),
    {
        match self.dependents.get(&dep) {
            Some(set) => set.contains(&id),
            None => false,
        }
    }
}

} // verus!
