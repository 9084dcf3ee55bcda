//! Whether the budget's transactions are all dealt with.
use vstd::prelude::*;

verus! {

/// A budget transaction, as far as the check reads it.
pub struct Transaction {
    pub approved: bool,
    pub flag_color: Option<String>,
}

/// A transaction is settled when it is flagged, or approved.
pub open spec fn settled(t: Transaction) -> bool {
    match t.flag_color {
        None => t.approved,
        Some(_) => true,
    }
}

/// Every transaction is settled (true when there are none).
pub fn transactions_settled(transactions: &Vec<Transaction>) -> (all: bool)
    ensures
        all == forall|i: int| 0 <= i < transactions.len() ==> settled(#[trigger] transactions@[i]),
        all == forall|i: int|
            0 <= i < transactions.len() ==> (#[trigger] transactions@[i]).flag_color is Some
                || transactions@[i].approved,
{
    let mut i: usize = 0;
    while i < transactions.len()
        invariant
            i <= transactions.len(),
            forall|j: int| 0 <= j < i ==> settled(#[trigger] transactions@[j]),
        decreases transactions.len() - i,
    {
        let t = &transactions[i];
        let ok = match &t.flag_color {
            None => t.approved,
            Some(_) => true,
        };
        if !ok {
            assert(!settled(transactions@[i as int]));
            return false;
        }
        i = i + 1;
    }
    true
}

/// A transaction is settled exactly when it carries a flag (approved or not)
/// or is approved (flagged or not).
pub proof fn law_settled_when_flagged_or_approved(t: Transaction)
    ensures
        settled(t) <==> (t.flag_color is Some || t.approved),
        t.flag_color is Some ==> settled(t),
        t.approved ==> settled(t),
{
}

} // verus!
