use vstd::prelude::*;

verus! {

/// Identifier of a transaction: an opaque 128-bit token chosen by the caller.
pub type TxId = u128;

/// Mathematical model of a transaction: its id and its declared dependencies.
pub struct TxView {
    pub id: TxId,
    pub deps: Seq<TxId>,
}

/// A submitted unit of work. It names, by id, the transactions it waits on.
#[derive(Debug)]
pub struct Transaction {
    pub id: TxId,
    pub dependencies: Vec<TxId>,
}

impl View for Transaction {
    type V = TxView;

    open spec fn view(&self) -> TxView {
        TxView { id: self.id, deps: self.dependencies@ }
    }
}

/// The models of a sequence of transactions, element by element.
pub open spec fn views(s: Seq<Transaction>) -> Seq<TxView> {
    s.map_values(|t: Transaction| t@)
}

impl Transaction {
    /// Builds a transaction with the given id and dependencies.
    pub fn new(id: TxId, dependencies: Vec<TxId>) -> (r: Transaction)
        ensures
            r@ == (TxView { id, deps: dependencies@ }),
    {
        Transaction { id, dependencies }
    }

    /// Returns an independent copy of this transaction.
    pub fn duplicate(&self) -> (r: Transaction)
        ensures
            r@ == self@,
    {
        let dependencies = self.dependencies.clone();
        proof {
            assert(dependencies@ =~= self.dependencies@);
        }
        Transaction { id: self.id, dependencies }
    }
}

} // verus!
