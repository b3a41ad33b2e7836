use crate::state::{
    approved, cancelled, guard, message_outcome, has_id, ids_unique, index_of_id, lemma_live, live, owned_open,
    proposed, transfer_completed, Receipt, Request, State,
};
use crate::types::{AccountAddress, Address, ErrorOnReceive, RequestAction, RequestId};
use vstd::prelude::*;

verus! {

/// Every state that the actions can reach holds at most one request under each id.
pub proof fn ids_stay_unique(s: State)
    requires
        s.inv(),
    ensures
        forall|i: int, j: int|
            0 <= i < s.requests().len() && 0 <= j < s.requests().len() && i != j
                ==> s.requests()[i].0 != s.requests()[j].0,
{
    s.lemma_inv();
    assert forall|i: int, j: int|
        0 <= i < s.requests().len() && 0 <= j < s.requests().len() && i != j implies s.requests()[i].0
        != s.requests()[j].0 by {
        if i < j {
            assert(ids_unique(s.requests()));
        } else {
            assert(s.requests()[j].0 != s.requests()[i].0);
        }
    }
}

/// Once a request's expiry has come, any approval of it fails with `TimedOut`,
/// whatever amount and receiver it names.
pub proof fn expired_request_cannot_be_approved(
    s: State,
    t: State,
    sender: Address,
    amount: u64,
    receiver: AccountAddress,
    id: RequestId,
    now: u64,
    r: Result<Receipt, ErrorOnReceive>,
)
    requires
        s.inv(),
        guard(s.signers(), sender) is Ok,
        has_id(s.requests(), id),
        s.requests()[index_of_id(s.requests(), id)].1.expiry <= now,
        approved(s, t, sender, amount, receiver, id, now, r),
    ensures
        r == Err::<Receipt, ErrorOnReceive>(ErrorOnReceive::TimedOut),
        t == s,
{
}

/// A successful proposal sweeps away every request whose expiry has come, and
/// keeps every other one unchanged and in order.
pub proof fn proposal_sweeps_expired(
    s: State,
    t: State,
    sender: Address,
    amount: u64,
    receiver: AccountAddress,
    id: RequestId,
    attached: u64,
    balance: u64,
    now: u64,
)
    requires
        s.inv(),
        proposed(s, t, sender, amount, receiver, id, attached, balance, now, Ok(())),
    ensures
        t.requests().drop_last() == live(s.requests(), now),
        forall|i: int| 0 <= i < t.requests().len() - 1 ==> #[trigger] t.requests()[i].1.expiry > now,
        forall|i: int|
            0 <= i < s.requests().len() && s.requests()[i].1.expiry > now ==> t.requests().contains(
                #[trigger] s.requests()[i],
            ),
{
    lemma_live(s.requests(), now);
    reveal(Seq::filter);
    assert forall|i: int| 0 <= i < t.requests().len() - 1 implies #[trigger] t.requests()[i].1.expiry
        > now by {
        assert(t.requests()[i] == live(s.requests(), now)[i]);
    }
    assert forall|i: int|
        0 <= i < s.requests().len() && s.requests()[i].1.expiry > now implies t.requests().contains(
        #[trigger] s.requests()[i],
    ) by {
        s.requests().lemma_filter_contains(|e: (RequestId, Request)| e.1.expiry > now, i);
        let k = choose|k: int|
            0 <= k < live(s.requests(), now).len() && live(s.requests(), now)[k] == s.requests()[i];
        assert(t.requests()[k] == live(s.requests(), now)[k]);
    }
}

/// A signer whose approval of a request was recorded is refused with
/// `AlreadyExists` when approving it again while it is open, whatever amount
/// and receiver the second approval names.
pub proof fn second_approval_is_rejected(
    s: State,
    t: State,
    u: State,
    sender: Address,
    amount: u64,
    receiver: AccountAddress,
    id: RequestId,
    now: u64,
    later: u64,
    amount2: u64,
    receiver2: AccountAddress,
    r: Result<Receipt, ErrorOnReceive>,
)
    requires
        s.inv(),
        t.inv(),
        approved(s, t, sender, amount, receiver, id, now, Ok(Receipt::Recorded)),
        later < s.requests()[index_of_id(s.requests(), id)].1.expiry,
        approved(t, u, sender, amount2, receiver2, id, later, r),
    ensures
        r == Err::<Receipt, ErrorOnReceive>(ErrorOnReceive::AlreadyExists),
        u == t,
{
    let i = index_of_id(s.requests(), id);
    let a = guard(s.signers(), sender)->Ok_0;
    assert(t.requests()[i].0 == id);
    assert(has_id(t.requests(), id));
    let j = index_of_id(t.requests(), id);
    ids_stay_unique(t);
    assert(j == i);
    let q = t.requests()[i].1;
    assert(q.accounts_in_aggrement@.last() == a);
    assert(q.accounts_in_aggrement@.contains(a));
}

/// An approval never takes an approver away: every request keeps its id and at
/// least as many approvers as before.
pub proof fn approval_never_shrinks_approvers(
    s: State,
    t: State,
    sender: Address,
    amount: u64,
    receiver: AccountAddress,
    id: RequestId,
    now: u64,
    r: Result<Receipt, ErrorOnReceive>,
)
    requires
        s.inv(),
        approved(s, t, sender, amount, receiver, id, now, r),
    ensures
        t.requests().len() == s.requests().len(),
        forall|j: int|
            0 <= j < s.requests().len() ==> #[trigger] t.requests()[j].0 == s.requests()[j].0
                && t.requests()[j].1.accounts_in_aggrement@.len()
                >= s.requests()[j].1.accounts_in_aggrement@.len(),
{
}

/// With a quorum of at least two, the approval that asks for the transfer is
/// exactly the one that brings the approvers to the quorum, and every other
/// accepted approval leaves the request below it.
pub proof fn quorum_is_exact(
    s: State,
    t: State,
    sender: Address,
    amount: u64,
    receiver: AccountAddress,
    id: RequestId,
    now: u64,
    r: Result<Receipt, ErrorOnReceive>,
)
    requires
        s.inv(),
        s.min_signers() >= 2,
        approved(s, t, sender, amount, receiver, id, now, r),
    ensures
        r is Ok ==> has_id(s.requests(), id),
        r matches Ok(Receipt::Transfer(_, _)) ==> s.requests()[index_of_id(
            s.requests(),
            id,
        )].1.accounts_in_aggrement@.len() + 1 == s.min_signers(),
        r == Ok::<Receipt, ErrorOnReceive>(Receipt::Recorded) ==> t.requests()[index_of_id(
            s.requests(),
            id,
        )].1.accounts_in_aggrement@.len() < s.min_signers(),
{
    s.lemma_inv();
}

/// No action takes an approver away from a request: a request that is stored
/// before and after an action, other than one that the action itself proposed
/// afresh, keeps every approver it had.
pub proof fn approvers_shrink_only_by_removal(
    s: State,
    t: State,
    sender: Address,
    attached: u64,
    balance: u64,
    now: u64,
    action: RequestAction,
    r: Result<Receipt, ErrorOnReceive>,
    i: int,
    j: int,
)
    requires
        s.inv(),
        t.inv(),
        message_outcome(s, t, sender, attached, balance, now, action, r),
        0 <= i < s.requests().len(),
        0 <= j < t.requests().len(),
        t.requests()[j].0 == s.requests()[i].0,
        !(action is SeekTransfer && r is Ok && action->SeekTransfer_2 == s.requests()[i].0),
    ensures
        s.requests()[i].1.accounts_in_aggrement@.to_set().subset_of(
            t.requests()[j].1.accounts_in_aggrement@.to_set(),
        ),
{
    ids_stay_unique(s);
    ids_stay_unique(t);
    let old_set = s.requests()[i].1.accounts_in_aggrement@;
    match action {
        RequestAction::SeekTransfer(amount, receiver, id) => {
            if r is Ok {
                lemma_live(s.requests(), now);
                let l = live(s.requests(), now);
                assert(j < t.requests().len() - 1);
                assert(t.requests()[j] == l[j]);
                let k = choose|k: int| 0 <= k < s.requests().len() && l[j] == s.requests()[k];
                assert(k == i);
            } else {
                assert(i == j);
            }
        },
        RequestAction::AcceptTransfer(amount, receiver, id) => {
            if r == Ok::<Receipt, ErrorOnReceive>(Receipt::Recorded) {
                let x = index_of_id(s.requests(), id);
                assert(t.requests()[i].0 == s.requests()[i].0);
                assert(i == j);
                if i == x {
                    let n = t.requests()[i].1.accounts_in_aggrement@;
                    assert forall|a: AccountAddress| old_set.to_set().contains(a) implies n.to_set().contains(a) by {
                        let k = choose|k: int| 0 <= k < old_set.len() && old_set[k] == a;
                        assert(n[k] == old_set[k]);
                    }
                }
            } else {
                assert(i == j);
            }
        },
    }
}

/// The transfer that a quorum asked for, once the ledger has made it, removes
/// the request: no request under that id remains.
pub proof fn completed_transfer_removes_request(
    s: State,
    t: State,
    u: State,
    sender: Address,
    amount: u64,
    receiver: AccountAddress,
    id: RequestId,
    now: u64,
    r: Result<(), ErrorOnReceive>,
)
    requires
        s.inv(),
        approved(s, t, sender, amount, receiver, id, now, Ok(Receipt::Transfer(receiver, amount))),
        transfer_completed(t, u, id, Ok(()), r),
    ensures
        r == Ok::<(), ErrorOnReceive>(()),
        !has_id(u.requests(), id),
        u.requests().len() + 1 == s.requests().len(),
{
    let i = index_of_id(s.requests(), id);
    ids_stay_unique(s);
    if has_id(u.requests(), id) {
        let k = choose|k: int| 0 <= k < u.requests().len() && u.requests()[k].0 == id;
        let k2 = if k < i { k } else { k + 1 };
        assert(u.requests()[k] == s.requests()[k2]);
    }
}

/// Cancellation succeeds exactly when the caller is a signer with an open
/// request of its own, and then removes one such request and nothing else.
pub proof fn cancellation_is_owner_only(
    s: State,
    t: State,
    sender: Address,
    now: u64,
    r: Result<(), ErrorOnReceive>,
)
    requires
        s.inv(),
        cancelled(s, t, sender, now, r),
    ensures
        r is Ok <==> (sender is Account && s.signers().contains(sender->Account_0) && exists|i: int|
            0 <= i < s.requests().len() && owned_open(s.requests()[i], sender->Account_0, now)),
        r is Ok ==> exists|i: int|
            0 <= i < s.requests().len() && s.requests()[i].1.sender_account == sender->Account_0
                && s.requests()[i].1.expiry > now && t.requests() == s.requests().remove(i),
        r is Err ==> t == s,
{
}

} // verus!
