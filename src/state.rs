use crate::types::{
    transfer_failure, AccountAddress, Address, Error, ErrorOnReceive, RequestAction, RequestId,
    TransferError,
};
use vstd::prelude::*;

verus! {

/// The configuration fixed when an instance is created. Times are in milliseconds.
pub struct InitialiseParams {
    pub timeout: u64,
    pub signers: Vec<AccountAddress>,
    pub min_signers_req: u16,
}

/// A pending transfer request. `accounts_in_aggrement` holds every signer that
/// approved it, the proposer first.
pub struct Request {
    pub amount: u64,
    pub sender_account: AccountAddress,
    pub accounts_in_aggrement: Vec<AccountAddress>,
    pub receiver: AccountAddress,
    pub expiry: u64,
}

/// The state of one instance: its configuration and its stored requests, each
/// under its id.
pub struct State {
    init_params: InitialiseParams,
    requests: Vec<(RequestId, Request)>,
}

/// What an accepted action asks of the ledger.
#[derive(Clone, Copy, Debug, PartialEq, Eq)]
pub enum Receipt {
    /// The action was recorded; nothing is to be paid out.
    Recorded,
    /// The request reached its quorum: pay this amount to this account, then
    /// report the ledger's answer with `complete_transfer`.
    Transfer(AccountAddress, u64),
}

/// The caller's account, if it is an individual account that belongs to `signers`.
pub open spec fn guard(signers: Set<AccountAddress>, sender: Address) -> Result<
    AccountAddress,
    ErrorOnReceive,
> {
    match sender {
        Address::Contract(_) => Err(ErrorOnReceive::NotUserAccount),
        Address::Account(a) => if signers.contains(a) {
            Ok(a)
        } else {
            Err(ErrorOnReceive::NotRegisteredAccount)
        },
    }
}

/// No two stored requests share an id.
pub open spec fn ids_unique(s: Seq<(RequestId, Request)>) -> bool {
    forall|i: int, j: int| 0 <= i < j < s.len() ==> s[i].0 != s[j].0
}

/// A request record is consistent with the configuration.
pub open spec fn request_wf(r: Request, signers: Set<AccountAddress>, min: nat) -> bool {
    &&& r.accounts_in_aggrement@.no_duplicates()
    &&& r.accounts_in_aggrement@.contains(r.sender_account)
    &&& forall|k: int|
        0 <= k < r.accounts_in_aggrement@.len() ==> signers.contains(
            #[trigger] r.accounts_in_aggrement@[k],
        )
    &&& (r.accounts_in_aggrement@.len() == 1 || r.accounts_in_aggrement@.len() < min)
}

/// The stored requests that are still open at `now`, in store order.
pub open spec fn live(s: Seq<(RequestId, Request)>, now: u64) -> Seq<(RequestId, Request)> {
    s.filter(|e: (RequestId, Request)| e.1.expiry > now)
}

/// The sum of the amounts of the requests that are still open at `now`.
pub open spec fn reserved_total(s: Seq<(RequestId, Request)>, now: u64) -> int
    decreases s.len(),
{
    if s.len() == 0 {
        0
    } else {
        reserved_total(s.drop_last(), now) + if s.last().1.expiry > now {
            s.last().1.amount as int
        } else {
            0
        }
    }
}

/// A sweep keeps only open requests, each taken from the store, and keeps ids unique.
pub proof fn lemma_live(s: Seq<(RequestId, Request)>, now: u64)
    ensures
        forall|i: int|
            0 <= i < live(s, now).len() ==> exists|j: int|
                0 <= j < s.len() && #[trigger] live(s, now)[i] == s[j],
        forall|i: int| 0 <= i < live(s, now).len() ==> #[trigger] live(s, now)[i].1.expiry > now,
        ids_unique(s) ==> ids_unique(live(s, now)),
    decreases s.len(),
{
    reveal(Seq::filter);
    if s.len() > 0 {
        let d = s.drop_last();
        lemma_live(d, now);
        let sub = live(d, now);
        let l = live(s, now);
        assert(l == if s.last().1.expiry > now {
            sub.push(s.last())
        } else {
            sub
        });
        assert forall|i: int| 0 <= i < l.len() implies exists|j: int|
            0 <= j < s.len() && #[trigger] l[i] == s[j] by {
            if i < sub.len() {
                let j = choose|j: int| 0 <= j < d.len() && sub[i] == d[j];
                assert(s[j] == d[j]);
            } else {
                assert(l[i] == s[s.len() - 1]);
            }
        }
        assert forall|i: int| 0 <= i < l.len() implies #[trigger] l[i].1.expiry > now by {
            if i < sub.len() {
                assert(l[i] == sub[i]);
            }
        }
        if ids_unique(s) {
            assert(ids_unique(d));
            assert forall|i: int, k: int| 0 <= i < k < l.len() implies l[i].0 != l[k].0 by {
                if k == sub.len() {
                    let j = choose|j: int| 0 <= j < d.len() && sub[i] == d[j];
                    assert(l[i] == s[j]);
                    assert(l[k] == s[s.len() - 1]);
                } else {
                    assert(l[i] == sub[i]);
                    assert(l[k] == sub[k]);
                }
            }
        }
    }
}

/// A sum of `n` amounts fits in 128 bits.
proof fn lemma_reserved_bound(s: Seq<(RequestId, Request)>, now: u64)
    ensures
        0 <= reserved_total(s, now) <= s.len() * 0xFFFF_FFFF_FFFF_FFFFint,
    decreases s.len(),
{
    if s.len() > 0 {
        lemma_reserved_bound(s.drop_last(), now);
        assert(s.len() * 0xFFFF_FFFF_FFFF_FFFFint == (s.len() - 1) * 0xFFFF_FFFF_FFFF_FFFFint
            + 0xFFFF_FFFF_FFFF_FFFFint) by (nonlinear_arith);
    }
}

/// Some stored request carries `id`.
pub open spec fn has_id(s: Seq<(RequestId, Request)>, id: RequestId) -> bool {
    exists|i: int| 0 <= i < s.len() && s[i].0 == id
}

/// The position of the request that carries `id`.
pub open spec fn index_of_id(s: Seq<(RequestId, Request)>, id: RequestId) -> int {
    choose|i: int| 0 <= i < s.len() && s[i].0 == id
}

/// Some request that is still open at `now` carries `id`.
pub open spec fn live_id(s: Seq<(RequestId, Request)>, id: RequestId, now: u64) -> bool {
    exists|i: int| 0 <= i < s.len() && s[i].0 == id && s[i].1.expiry > now
}

/// The request was proposed by `a` and is still open at `now`.
pub open spec fn owned_open(e: (RequestId, Request), a: AccountAddress, now: u64) -> bool {
    e.1.sender_account == a && e.1.expiry > now
}

/// `e` is a fresh request under `id`, approved by its proposer alone.
pub open spec fn is_fresh(
    e: (RequestId, Request),
    id: RequestId,
    amount: u64,
    proposer: AccountAddress,
    receiver: AccountAddress,
    expiry: int,
) -> bool {
    &&& e.0 == id
    &&& e.1.amount == amount
    &&& e.1.sender_account == proposer
    &&& e.1.accounts_in_aggrement@ == seq![proposer]
    &&& e.1.receiver == receiver
    &&& e.1.expiry == expiry
}

/// `q` is `p` with one more approver, `a`.
pub open spec fn with_approver(p: Request, q: Request, a: AccountAddress) -> bool {
    &&& q.amount == p.amount
    &&& q.sender_account == p.sender_account
    &&& q.accounts_in_aggrement@ == p.accounts_in_aggrement@.push(a)
    &&& q.receiver == p.receiver
    &&& q.expiry == p.expiry
}

/// Two states share their configuration.
pub open spec fn same_config(s: State, t: State) -> bool {
    &&& t.signers() == s.signers()
    &&& t.min_signers() == s.min_signers()
    &&& t.timeout() == s.timeout()
}

/// The outcome `(t, r)` of a proposal on `s`: the caller is admitted, expired
/// requests are swept, the id must be free among open requests, the funds
/// must cover every open request and this one, and the expiry must fit.
pub open spec fn proposed(
    s: State,
    t: State,
    sender: Address,
    amount: u64,
    receiver: AccountAddress,
    id: RequestId,
    attached: u64,
    balance: u64,
    now: u64,
    r: Result<(), ErrorOnReceive>,
) -> bool {
    match guard(s.signers(), sender) {
        Err(e) => r == Err::<(), ErrorOnReceive>(e) && t == s,
        Ok(p) => if live_id(s.requests(), id, now) {
            r == Err::<(), ErrorOnReceive>(ErrorOnReceive::AlreadyExists) && t == s
        } else if (attached as int + balance as int) < reserved_total(s.requests(), now)
            + amount as int {
            r == Err::<(), ErrorOnReceive>(ErrorOnReceive::InsufficientBalance) && t == s
        } else if now as int + s.timeout() as int > u64::MAX as int {
            r == Err::<(), ErrorOnReceive>(ErrorOnReceive::Overflow) && t == s
        } else {
            &&& r == Ok::<(), ErrorOnReceive>(())
            &&& same_config(s, t)
            &&& t.requests().len() == live(s.requests(), now).len() + 1
            &&& t.requests().drop_last() == live(s.requests(), now)
            &&& is_fresh(t.requests().last(), id, amount, p, receiver, now + s.timeout())
        },
    }
}

/// The outcome `(t, r)` of an approval on `s`: the caller is admitted, the
/// request must exist, be open, lack the caller's approval, and carry this
/// amount and receiver. The approval that completes the quorum leaves the state
/// as it is and asks for the transfer; any other is recorded.
pub open spec fn approved(
    s: State,
    t: State,
    sender: Address,
    amount: u64,
    receiver: AccountAddress,
    id: RequestId,
    now: u64,
    r: Result<Receipt, ErrorOnReceive>,
) -> bool {
    match guard(s.signers(), sender) {
        Err(e) => r == Err::<Receipt, ErrorOnReceive>(e) && t == s,
        Ok(a) => if !has_id(s.requests(), id) {
            r == Err::<Receipt, ErrorOnReceive>(ErrorOnReceive::ParseParams) && t == s
        } else {
            let i = index_of_id(s.requests(), id);
            let q = s.requests()[i].1;
            if q.expiry <= now {
                r == Err::<Receipt, ErrorOnReceive>(ErrorOnReceive::TimedOut) && t == s
            } else if q.accounts_in_aggrement@.contains(a) {
                r == Err::<Receipt, ErrorOnReceive>(ErrorOnReceive::AlreadyExists) && t == s
            } else if q.amount != amount || q.receiver != receiver {
                r == Err::<Receipt, ErrorOnReceive>(ErrorOnReceive::ParseParams) && t == s
            } else if q.accounts_in_aggrement@.len() + 1 >= s.min_signers() {
                r == Ok::<Receipt, ErrorOnReceive>(Receipt::Transfer(q.receiver, q.amount)) && t
                    == s
            } else {
                &&& r == Ok::<Receipt, ErrorOnReceive>(Receipt::Recorded)
                &&& same_config(s, t)
                &&& t.requests().len() == s.requests().len()
                &&& forall|j: int|
                    0 <= j < s.requests().len() && j != i ==> #[trigger] t.requests()[j]
                        == s.requests()[j]
                &&& t.requests()[i].0 == id
                &&& with_approver(q, t.requests()[i].1, a)
            }
        },
    }
}

/// The outcome `(t, r)` of reporting the ledger's answer to a transfer for `id`:
/// on success the request is removed, on failure nothing changes.
pub open spec fn transfer_completed(
    s: State,
    t: State,
    id: RequestId,
    outcome: Result<(), TransferError>,
    r: Result<(), ErrorOnReceive>,
) -> bool {
    match outcome {
        Err(e) => r == Err::<(), ErrorOnReceive>(transfer_failure(e)) && t == s,
        Ok(_) => {
            &&& r == Ok::<(), ErrorOnReceive>(())
            &&& same_config(s, t)
            &&& if has_id(s.requests(), id) {
                t.requests() == s.requests().remove(index_of_id(s.requests(), id))
            } else {
                t.requests() == s.requests()
            }
        },
    }
}

/// The outcome `(t, r)` of a cancellation on `s`: the caller is admitted and
/// the first open request that the caller proposed is removed.
pub open spec fn cancelled(s: State, t: State, sender: Address, now: u64, r: Result<(), ErrorOnReceive>) -> bool {
    match guard(s.signers(), sender) {
        Err(e) => r == Err::<(), ErrorOnReceive>(e) && t == s,
        Ok(a) => if exists|i: int| 0 <= i < s.requests().len() && owned_open(s.requests()[i], a, now) {
            &&& r == Ok::<(), ErrorOnReceive>(())
            &&& same_config(s, t)
            &&& exists|i: int|
                0 <= i < s.requests().len() && owned_open(s.requests()[i], a, now) && (forall|j: int|
                    0 <= j < i ==> !owned_open(#[trigger] s.requests()[j], a, now))
                    && t.requests() == s.requests().remove(i)
        } else {
            r == Err::<(), ErrorOnReceive>(ErrorOnReceive::ParseParams) && t == s
        },
    }
}

/// The outcome `(t, r)` of one action on `s`, as `message` carries it out.
pub open spec fn message_outcome(
    s: State,
    t: State,
    sender: Address,
    attached: u64,
    balance: u64,
    now: u64,
    action: RequestAction,
    r: Result<Receipt, ErrorOnReceive>,
) -> bool {
    match action {
        RequestAction::SeekTransfer(amount, receiver, id) => {
            &&& r is Ok ==> r == Ok::<Receipt, ErrorOnReceive>(Receipt::Recorded)
            &&& proposed(
                s,
                t,
                sender,
                amount,
                receiver,
                id,
                attached,
                balance,
                now,
                match r {
                    Ok(_) => Ok(()),
                    Err(e) => Err(e),
                },
            )
        },
        RequestAction::AcceptTransfer(amount, receiver, id) => approved(
            s,
            t,
            sender,
            amount,
            receiver,
            id,
            now,
            r,
        ),
    }
}

/// Whether `v` holds `a`.
fn contains_account(v: &Vec<AccountAddress>, a: &AccountAddress) -> (r: bool)
    ensures
        r == v@.contains(*a),
{
    let mut i: usize = 0;
    while i < v.len()
        invariant
            0 <= i <= v@.len(),
            forall|k: int| 0 <= k < i ==> v@[k] != *a,
        decreases v@.len() - i,
    {
        if v[i] == *a {
            return true;
        }
        i = i + 1;
    }
    false
}

/// Whether no account occurs twice in `v`.
fn accounts_distinct(v: &Vec<AccountAddress>) -> (r: bool)
    ensures
        r == v@.no_duplicates(),
{
    let mut i: usize = 0;
    while i < v.len()
        invariant
            0 <= i <= v@.len(),
            forall|x: int, y: int| 0 <= x < i && 0 <= y < i && x != y ==> v@[x] != v@[y],
        decreases v@.len() - i,
    {
        let mut j: usize = 0;
        while j < i
            invariant
                0 <= j <= i < v@.len(),
                forall|x: int| 0 <= x < j ==> v@[x] != v@[i as int],
            decreases i - j,
        {
            if v[j] == v[i] {
                assert(v@[j as int] == v@[i as int]);
                return false;
            }
            j = j + 1;
        }
        i = i + 1;
    }
    true
}

impl State {
    /// The set of signers.
    pub closed spec fn signers(&self) -> Set<AccountAddress> {
        self.init_params.signers@.to_set()
    }

    /// The number of approvals that releases a transfer.
    pub closed spec fn min_signers(&self) -> nat {
        self.init_params.min_signers_req as nat
    }

    /// How long a request stays open, in milliseconds.
    pub closed spec fn timeout(&self) -> u64 {
        self.init_params.timeout
    }

    /// The stored requests, in store order.
    pub closed spec fn requests(&self) -> Seq<(RequestId, Request)> {
        self.requests@
    }

    /// The configuration and every stored request are well formed.
    pub closed spec fn inv(&self) -> bool {
        &&& self.init_params.signers@.no_duplicates()
        &&& self.init_params.signers@.len() >= 3
        &&& self.init_params.min_signers_req as nat <= self.init_params.signers@.len()
        &&& ids_unique(self.requests@)
        &&& forall|i: int|
            0 <= i < self.requests@.len() ==> request_wf(
                #[trigger] self.requests@[i].1,
                self.signers(),
                self.min_signers(),
            )
    }

    /// The configuration facts that the invariant gives to callers.
    pub proof fn lemma_inv(&self)
        requires
            self.inv(),
        ensures
            self.signers().len() >= 3,
            self.min_signers() <= self.signers().len(),
            ids_unique(self.requests()),
            forall|i: int|
                0 <= i < self.requests().len() ==> request_wf(
                    #[trigger] self.requests()[i].1,
                    self.signers(),
                    self.min_signers(),
                ),
    {
        self.init_params.signers@.unique_seq_to_set();
    }

    /// Creates an instance from its configuration. Repeated signers count once.
    pub fn init(params: InitialiseParams) -> (r: Result<State, Error>)
        ensures
            r is Ok <==> (params.min_signers_req as nat <= params.signers@.to_set().len()
                && params.signers@.to_set().len() >= 3),
            r == Err::<State, Error>(Error::AccountsLessThanSupportNeeded) <==> params.min_signers_req
                as nat > params.signers@.to_set().len(),
            r == Err::<State, Error>(Error::IncompleteAccounts) <==> (params.min_signers_req as nat
                <= params.signers@.to_set().len() && params.signers@.to_set().len() < 3),
            r is Ok ==> {
                let s = r->Ok_0;
                &&& s.inv()
                &&& s.signers() == params.signers@.to_set()
                &&& s.min_signers() == params.min_signers_req as nat
                &&& s.timeout() == params.timeout
                &&& s.requests().len() == 0
            },
    {
        let ghost given = params.signers@;
        let mut unique: Vec<AccountAddress> = Vec::new();
        let mut j: usize = 0;
        while j < params.signers.len()
            invariant
                0 <= j <= given.len(),
                given == params.signers@,
                unique@.no_duplicates(),
                forall|x: AccountAddress|
                    unique@.contains(x) <==> exists|k: int| 0 <= k < j && given[k] == x,
            decreases given.len() - j,
        {
            let a = params.signers[j];
            let ghost before = unique@;
            if !contains_account(&unique, &a) {
                unique.push(a);
            }
            assert forall|x: AccountAddress|
                unique@.contains(x) <==> exists|k: int| 0 <= k < j + 1 && given[k] == x by {
                if unique@.contains(x) {
                    if x != a {
                        assert(before.contains(x)) by {
                            let i = choose|i: int| 0 <= i < unique@.len() && unique@[i] == x;
                            assert(before[i] == x);
                        }
                    }
                }
                if exists|k: int| 0 <= k < j + 1 && given[k] == x {
                    let k = choose|k: int| 0 <= k < j + 1 && given[k] == x;
                    if k == j {
                        assert(unique@.contains(a)) by {
                            if !before.contains(a) {
                                assert(unique@[unique@.len() - 1] == a);
                            } else {
                                let i = choose|i: int|
                                    0 <= i < before.len() && before[i] == a;
                                assert(unique@[i] == a);
                            }
                        }
                    } else {
                        assert(before.contains(x));
                        let i = choose|i: int| 0 <= i < before.len() && before[i] == x;
                        assert(unique@[i] == x);
                    }
                }
            }
            j = j + 1;
        }
        proof {
            assert(unique@.to_set() =~= given.to_set());
            unique@.unique_seq_to_set();
        }
        if params.min_signers_req as usize > unique.len() {
            return Err(Error::AccountsLessThanSupportNeeded);
        }
        if unique.len() < 3 {
            return Err(Error::IncompleteAccounts);
        }
        let s = State {
            init_params: InitialiseParams {
                timeout: params.timeout,
                signers: unique,
                min_signers_req: params.min_signers_req,
            },
            requests: Vec::new(),
        };
        Ok(s)
    }

    /// The sum of the amounts of the requests that are still open at `now`.
    pub fn reserved_balance(&self, now: u64) -> (r: u128)
        ensures
            r == reserved_total(self.requests(), now),
    {
        let ghost s = self.requests@;
        let mut sum: u128 = 0;
        let mut i: usize = 0;
        while i < self.requests.len()
            invariant
                s == self.requests@,
                0 <= i <= s.len(),
                sum == reserved_total(s.take(i as int), now),
            decreases s.len() - i,
        {
            proof {
                assert(s.take(i + 1).drop_last() =~= s.take(i as int));
                lemma_reserved_bound(s.take(i + 1), now);
                assert((i + 1) * 0xFFFF_FFFF_FFFF_FFFFint <= 0x1_0000_0000_0000_0000int
                    * 0xFFFF_FFFF_FFFF_FFFFint) by (nonlinear_arith)
                    requires
                        i + 1 <= 0x1_0000_0000_0000_0000int,
                ;
            }
            if self.requests[i].1.expiry > now {
                sum = sum + self.requests[i].1.amount as u128;
            }
            i = i + 1;
        }
        assert(s.take(s.len() as int) =~= s);
        sum
    }

    /// Removes every request that has expired at `now`, and returns the sum of
    /// the amounts of those that remain.
    pub fn prune_expired(&mut self, now: u64) -> (r: u128)
        requires
            old(self).inv(),
        ensures
            final(self).inv(),
            final(self).requests() == live(old(self).requests(), now),
            final(self).signers() == old(self).signers(),
            final(self).min_signers() == old(self).min_signers(),
            final(self).timeout() == old(self).timeout(),
            r == reserved_total(old(self).requests(), now),
    {
        let r = self.reserved_balance(now);
        let ghost orig = self.requests@;
        let mut rest: Vec<(RequestId, Request)> = Vec::new();
        std::mem::swap(&mut rest, &mut self.requests);
        let mut kept: Vec<(RequestId, Request)> = Vec::new();
        while rest.len() > 0
            invariant
                rest@.len() <= orig.len(),
                rest@ == orig.skip(orig.len() - rest@.len()),
                kept@ == live(orig.take(orig.len() - rest@.len()), now),
            decreases rest@.len(),
        {
            let ghost k = orig.len() - rest@.len();
            let e = rest.remove(0);
            proof {
                reveal(Seq::filter);
                assert(e == orig[k]);
                assert(orig.take(k + 1).drop_last() =~= orig.take(k));
                assert(orig.take(k + 1).last() == orig[k]);
                assert(rest@ =~= orig.skip(k + 1));
            }
            if e.1.expiry > now {
                kept.push(e);
            }
        }
        self.requests = kept;
        proof {
            assert(orig.take(orig.len() as int) =~= orig);
            lemma_live(orig, now);
            let l = live(orig, now);
            assert forall|i: int| 0 <= i < l.len() implies request_wf(
                #[trigger] l[i].1,
                self.signers(),
                self.min_signers(),
            ) by {
                let j = choose|j: int| 0 <= j < orig.len() && l[i] == orig[j];
            }
        }
        r
    }

    /// Whether a request that is still open at `now` carries `id`.
    fn has_live_id(&self, id: RequestId, now: u64) -> (r: bool)
        ensures
            r == live_id(self.requests(), id, now),
    {
        let mut i: usize = 0;
        while i < self.requests.len()
            invariant
                0 <= i <= self.requests@.len(),
                forall|k: int|
                    0 <= k < i ==> !(self.requests@[k].0 == id && self.requests@[k].1.expiry
                        > now),
            decreases self.requests@.len() - i,
        {
            if self.requests[i].0 == id && self.requests[i].1.expiry > now {
                return true;
            }
            i = i + 1;
        }
        false
    }

    /// The position of the request that carries `id`, if any.
    fn find_index(&self, id: RequestId) -> (r: Option<usize>)
        requires
            self.inv(),
        ensures
            r is None <==> !has_id(self.requests(), id),
            r is Some ==> r->Some_0 == index_of_id(self.requests(), id),
            has_id(self.requests(), id) ==> 0 <= index_of_id(self.requests(), id) < self.requests().len()
                && self.requests()[index_of_id(self.requests(), id)].0 == id,
    {
        let mut i: usize = 0;
        while i < self.requests.len()
            invariant
                0 <= i <= self.requests@.len(),
                self.inv(),
                forall|k: int| 0 <= k < i ==> self.requests@[k].0 != id,
            decreases self.requests@.len() - i,
        {
            if self.requests[i].0 == id {
                assert(has_id(self.requests(), id));
                proof {
                    let j = index_of_id(self.requests(), id);
                    assert(self.requests@[j].0 == id);
                    if j < i {
                        assert(self.requests@[j].0 != self.requests@[i as int].0);
                    } else if i < j {
                        assert(self.requests@[i as int].0 != self.requests@[j].0);
                    }
                }
                return Some(i);
            }
            i = i + 1;
        }
        None
    }

    /// Proposes a transfer of `amount` to `receiver` under `id`. `attached` is
    /// what came with the call and `balance` what the instance holds.
    pub fn propose(
        &mut self,
        sender: &Address,
        amount: u64,
        receiver: AccountAddress,
        id: RequestId,
        attached: u64,
        balance: u64,
        now: u64,
    ) -> (r: Result<(), ErrorOnReceive>)
        requires
            old(self).inv(),
        ensures
            final(self).inv(),
            proposed(*old(self), *final(self), *sender, amount, receiver, id, attached, balance, now, r),
    {
        let proposer = match self.authorize(sender) {
            Ok(a) => a,
            Err(e) => return Err(e),
        };
        let reserved = self.reserved_balance(now);
        if self.has_live_id(id, now) {
            return Err(ErrorOnReceive::AlreadyExists);
        }
        let funds: u128 = attached as u128 + balance as u128;
        if reserved > funds || funds - reserved < amount as u128 {
            return Err(ErrorOnReceive::InsufficientBalance);
        }
        let expiry = match now.checked_add(self.init_params.timeout) {
            Some(x) => x,
            None => return Err(ErrorOnReceive::Overflow),
        };
        self.prune_expired(now);
        let ghost kept = self.requests@;
        let mut approvers: Vec<AccountAddress> = Vec::new();
        approvers.push(proposer);
        let request = Request {
            amount,
            sender_account: proposer,
            accounts_in_aggrement: approvers,
            receiver,
            expiry,
        };
        self.requests.push((id, request));
        proof {
            assert(self.requests@.drop_last() =~= kept);
            lemma_live(old(self).requests@, now);
            assert forall|i: int, j: int|
                0 <= i < j < self.requests@.len() implies self.requests@[i].0
                != self.requests@[j].0 by {
                if j == kept.len() {
                    let k = choose|k: int|
                        0 <= k < old(self).requests@.len() && #[trigger] kept[i]
                            == old(self).requests@[k];
                    assert(kept[i] == self.requests@[i]);
                    assert(kept[i].1.expiry > now);
                }
            }
            assert forall|i: int| 0 <= i < self.requests@.len() implies request_wf(
                #[trigger] self.requests@[i].1,
                self.signers(),
                self.min_signers(),
            ) by {
                if i < kept.len() {
                    assert(self.requests@[i] == kept[i]);
                    let k = choose|k: int|
                        0 <= k < old(self).requests@.len() && #[trigger] kept[i]
                            == old(self).requests@[k];
                    assert(request_wf(old(self).requests@[k].1, old(self).signers(), old(self).min_signers()));
                } else {
                    let n = self.requests@[i].1;
                    assert(n.accounts_in_aggrement@ =~= seq![proposer]);
                    assert(n.accounts_in_aggrement@[0] == proposer);
                    assert(old(self).signers().contains(proposer));
                }
            }
        }
        Ok(())
    }

    /// Approves the request `id`, which must carry `amount` and `receiver`.
    pub fn approve(
        &mut self,
        sender: &Address,
        amount: u64,
        receiver: AccountAddress,
        id: RequestId,
        now: u64,
    ) -> (r: Result<Receipt, ErrorOnReceive>)
        requires
            old(self).inv(),
        ensures
            final(self).inv(),
            approved(*old(self), *final(self), *sender, amount, receiver, id, now, r),
    {
        let approver = match self.authorize(sender) {
            Ok(a) => a,
            Err(e) => return Err(e),
        };
        let i = match self.find_index(id) {
            Some(i) => i,
            None => return Err(ErrorOnReceive::ParseParams),
        };
        let min = self.init_params.min_signers_req;
        {
            let q = &self.requests[i].1;
            if q.expiry <= now {
                return Err(ErrorOnReceive::TimedOut);
            }
            if contains_account(&q.accounts_in_aggrement, &approver) {
                return Err(ErrorOnReceive::AlreadyExists);
            }
            if q.amount != amount || !(q.receiver == receiver) {
                return Err(ErrorOnReceive::ParseParams);
            }
            if min == 0 || q.accounts_in_aggrement.len() >= min as usize - 1 {
                return Ok(Receipt::Transfer(q.receiver, q.amount));
            }
        }
        let ghost before = self.requests@;
        let mut entry = self.requests.remove(i);
        entry.1.accounts_in_aggrement.push(approver);
        self.requests.insert(i, entry);
        proof {
            assert forall|j: int| 0 <= j < before.len() && j != i implies #[trigger] self.requests@[j]
                == before[j] by {}
            assert forall|j: int, k: int|
                0 <= j < k < self.requests@.len() implies self.requests@[j].0
                != self.requests@[k].0 by {
                assert(before[j].0 == self.requests@[j].0);
                assert(before[k].0 == self.requests@[k].0);
            }
            let q = before[i as int].1;
            let n = self.requests@[i as int].1;
            assert(request_wf(q, self.signers(), self.min_signers()));
            assert(n.accounts_in_aggrement@.no_duplicates()) by {
                assert forall|x: int, y: int|
                    0 <= x < y < n.accounts_in_aggrement@.len() implies n.accounts_in_aggrement@[x]
                    != n.accounts_in_aggrement@[y] by {
                    if y == q.accounts_in_aggrement@.len() {
                        assert(q.accounts_in_aggrement@[x] == n.accounts_in_aggrement@[x]);
                    }
                }
            }
            assert(n.accounts_in_aggrement@[q.accounts_in_aggrement@.len() as int] == approver);
            assert(n.accounts_in_aggrement@.contains(n.sender_account)) by {
                let x = choose|x: int|
                    0 <= x < q.accounts_in_aggrement@.len() && q.accounts_in_aggrement@[x]
                        == q.sender_account;
                assert(n.accounts_in_aggrement@[x] == q.sender_account);
            }
            assert forall|j: int| 0 <= j < self.requests@.len() implies request_wf(
                #[trigger] self.requests@[j].1,
                self.signers(),
                self.min_signers(),
            ) by {
                if j != i {
                    assert(self.requests@[j] == before[j]);
                }
            }
        }
        Ok(Receipt::Recorded)
    }

    /// Takes the ledger's answer to the transfer that the approval of `id`
    /// asked for: on success the request is removed.
    pub fn complete_transfer(&mut self, id: RequestId, outcome: Result<(), TransferError>) -> (r:
        Result<(), ErrorOnReceive>)
        requires
            old(self).inv(),
        ensures
            final(self).inv(),
            transfer_completed(*old(self), *final(self), id, outcome, r),
    {
        match outcome {
            Err(e) => Err(ErrorOnReceive::from(e)),
            Ok(()) => {
                match self.find_index(id) {
                    Some(i) => {
                        let ghost before = self.requests@;
                        let _ = self.requests.remove(i);
                        proof {
                            assert forall|j: int, k: int|
                                0 <= j < k < self.requests@.len() implies self.requests@[j].0
                                != self.requests@[k].0 by {
                                let j2 = if j < i { j } else { j + 1 };
                                let k2 = if k < i { k } else { k + 1 };
                                assert(self.requests@[j] == before[j2]);
                                assert(self.requests@[k] == before[k2]);
                            }
                            assert forall|j: int| 0 <= j < self.requests@.len() implies request_wf(
                                #[trigger] self.requests@[j].1,
                                self.signers(),
                                self.min_signers(),
                            ) by {
                                let j2 = if j < i { j } else { j + 1 };
                                assert(self.requests@[j] == before[j2]);
                            }
                        }
                        Ok(())
                    },
                    None => Ok(()),
                }
            },
        }
    }

    /// Withdraws the first open request that the caller proposed.
    pub fn cancel_request(&mut self, sender: &Address, now: u64) -> (r: Result<(), ErrorOnReceive>)
        requires
            old(self).inv(),
        ensures
            final(self).inv(),
            cancelled(*old(self), *final(self), *sender, now, r),
    {
        let owner = match self.authorize(sender) {
            Ok(a) => a,
            Err(e) => return Err(e),
        };
        let mut i: usize = 0;
        while i < self.requests.len()
            invariant
                0 <= i <= self.requests@.len(),
                *self == *old(self),
                self.inv(),
                guard(self.signers(), *sender) == Ok::<AccountAddress, ErrorOnReceive>(owner),
                forall|k: int| 0 <= k < i ==> !owned_open(#[trigger] self.requests@[k], owner, now),
            decreases self.requests@.len() - i,
        {
            if self.requests[i].1.sender_account == owner && self.requests[i].1.expiry > now {
                let ghost before = self.requests@;
                let _ = self.requests.remove(i);
                proof {
                    assert(owned_open(before[i as int], owner, now));
                    assert forall|j: int, k: int|
                        0 <= j < k < self.requests@.len() implies self.requests@[j].0
                        != self.requests@[k].0 by {
                        let j2 = if j < i { j } else { j + 1 };
                        let k2 = if k < i { k } else { k + 1 };
                        assert(self.requests@[j] == before[j2]);
                        assert(self.requests@[k] == before[k2]);
                    }
                    assert forall|j: int| 0 <= j < self.requests@.len() implies request_wf(
                        #[trigger] self.requests@[j].1,
                        self.signers(),
                        self.min_signers(),
                    ) by {
                        let j2 = if j < i { j } else { j + 1 };
                        assert(self.requests@[j] == before[j2]);
                    }
                }
                return Ok(());
            }
            i = i + 1;
        }
        Err(ErrorOnReceive::ParseParams)
    }

    /// Carries out one action on behalf of `sender`. `attached` is what came
    /// with the call and `balance` what the instance holds.
    pub fn message(
        &mut self,
        sender: &Address,
        attached: u64,
        balance: u64,
        now: u64,
        action: RequestAction,
    ) -> (r: Result<Receipt, ErrorOnReceive>)
        requires
            old(self).inv(),
        ensures
            final(self).inv(),
            message_outcome(*old(self), *final(self), *sender, attached, balance, now, action, r),
    {
        match action {
            RequestAction::SeekTransfer(amount, receiver, id) => {
                match self.propose(sender, amount, receiver, id, attached, balance, now) {
                    Ok(()) => Ok(Receipt::Recorded),
                    Err(e) => Err(e),
                }
            },
            RequestAction::AcceptTransfer(amount, receiver, id) => {
                self.approve(sender, amount, receiver, id, now)
            },
        }
    }

    /// Whether `r` is consistent with the configuration.
    fn request_fits(&self, r: &Request) -> (b: bool)
        ensures
            b == request_wf(*r, self.signers(), self.min_signers()),
    {
        if !accounts_distinct(&r.accounts_in_aggrement) {
            return false;
        }
        if !contains_account(&r.accounts_in_aggrement, &r.sender_account) {
            return false;
        }
        let v = &r.accounts_in_aggrement;
        let mut k: usize = 0;
        while k < v.len()
            invariant
                0 <= k <= v@.len(),
                v@ == r.accounts_in_aggrement@,
                forall|x: int| 0 <= x < k ==> self.signers().contains(#[trigger] v@[x]),
            decreases v@.len() - k,
        {
            if !self.is_signer(&v[k]) {
                assert(!self.signers().contains(v@[k as int]));
                return false;
            }
            k = k + 1;
        }
        v.len() == 1 || v.len() < self.init_params.min_signers_req as usize
    }

    /// Rebuilds a state from its configuration and its stored requests, as
    /// `into_parts` gave them. The configuration is checked as by `init`; a
    /// request list with a repeated id, or a request that does not fit the
    /// configuration, is refused with `ParseParams`.
    pub fn restore(params: InitialiseParams, requests: Vec<(RequestId, Request)>) -> (r: Result<
        State,
        Error,
    >)
        ensures
            r == Err::<State, Error>(Error::AccountsLessThanSupportNeeded) <==> params.min_signers_req
                as nat > params.signers@.to_set().len(),
            r == Err::<State, Error>(Error::IncompleteAccounts) <==> (params.min_signers_req as nat
                <= params.signers@.to_set().len() && params.signers@.to_set().len() < 3),
            r is Ok <==> (params.min_signers_req as nat <= params.signers@.to_set().len()
                && params.signers@.to_set().len() >= 3 && ids_unique(requests@) && forall|i: int|
                0 <= i < requests@.len() ==> request_wf(
                    #[trigger] requests@[i].1,
                    params.signers@.to_set(),
                    params.min_signers_req as nat,
                )),
            r is Ok ==> {
                let s = r->Ok_0;
                &&& s.inv()
                &&& s.signers() == params.signers@.to_set()
                &&& s.min_signers() == params.min_signers_req as nat
                &&& s.timeout() == params.timeout
                &&& s.requests() == requests@
            },
    {
        let ghost given = params.signers@;
        let ghost orig = requests@;
        let ghost min = params.min_signers_req as nat;
        let mut s = match State::init(params) {
            Ok(s) => s,
            Err(e) => return Err(e),
        };
        let ghost base = s;
        let mut rest = requests;
        while rest.len() > 0
            invariant
                s.inv(),
                same_config(base, s),
                base.signers() == given.to_set(),
                base.min_signers() == min,
                given == params.signers@,
                min == params.min_signers_req as nat,
                orig == requests@,
                min <= given.to_set().len(),
                given.to_set().len() >= 3,
                rest@.len() <= orig.len(),
                rest@ == orig.skip(orig.len() - rest@.len()),
                s.requests@ == orig.take(orig.len() - rest@.len()),
            decreases rest@.len(),
        {
            let ghost k = orig.len() - rest@.len();
            let e = rest.remove(0);
            proof {
                assert(e == orig[k]);
                assert(rest@ =~= orig.skip(k + 1));
            }
            if s.find_index(e.0).is_some() || !s.request_fits(&e.1) {
                proof {
                    if has_id(s.requests(), e.0) {
                        let j = choose|j: int| 0 <= j < s.requests().len() && s.requests()[j].0 == e.0;
                        assert(orig[j] == s.requests@[j]);
                        assert(!ids_unique(orig));
                    } else {
                        assert(!request_wf(orig[k].1, given.to_set(), min));
                    }
                }
                return Err(Error::ParseParams);
            }
            let ghost before = s.requests@;
            s.requests.push(e);
            proof {
                assert(s.requests@ =~= orig.take(k + 1));
                assert forall|i: int, j: int|
                    0 <= i < j < s.requests@.len() implies s.requests@[i].0 != s.requests@[j].0 by {
                    if j == before.len() {
                        assert(s.requests@[i] == before[i]);
                        assert(!has_id(before, e.0));
                    } else {
                        assert(s.requests@[i] == before[i]);
                        assert(s.requests@[j] == before[j]);
                    }
                }
                assert forall|i: int| 0 <= i < s.requests@.len() implies request_wf(
                    #[trigger] s.requests@[i].1,
                    s.signers(),
                    s.min_signers(),
                ) by {
                    if i < before.len() {
                        assert(s.requests@[i] == before[i]);
                    }
                }
            }
        }
        proof {
            assert(orig.take(orig.len() as int) =~= orig);
            s.lemma_inv();
        }
        Ok(s)
    }

    /// Splits the state into its configuration, with each signer once, and its
    /// stored requests in store order.
    pub fn into_parts(self) -> (r: (InitialiseParams, Vec<(RequestId, Request)>))
        requires
            self.inv(),
        ensures
            r.0.signers@.no_duplicates(),
            r.0.signers@.to_set() == self.signers(),
            r.0.min_signers_req as nat == self.min_signers(),
            r.0.timeout == self.timeout(),
            r.1@ == self.requests(),
    {
        (self.init_params, self.requests)
    }

    /// The number of signers.
    pub fn signer_count(&self) -> (r: usize)
        requires
            self.inv(),
        ensures
            r == self.signers().len(),
    {
        proof {
            self.init_params.signers@.unique_seq_to_set();
        }
        self.init_params.signers.len()
    }

    /// Whether `a` is one of the signers.
    pub fn is_signer(&self, a: &AccountAddress) -> (r: bool)
        ensures
            r == self.signers().contains(*a),
    {
        contains_account(&self.init_params.signers, a)
    }

    /// The number of approvals that releases a transfer.
    pub fn quorum(&self) -> (r: u16)
        ensures
            r == self.min_signers(),
    {
        self.init_params.min_signers_req
    }

    /// How long a request stays open, in milliseconds.
    pub fn timeout_duration(&self) -> (r: u64)
        ensures
            r == self.timeout(),
    {
        self.init_params.timeout
    }

    /// The number of stored requests.
    pub fn request_count(&self) -> (r: usize)
        ensures
            r == self.requests().len(),
    {
        self.requests.len()
    }

    /// The request stored under `id`, if any.
    pub fn request(&self, id: RequestId) -> (r: Option<&Request>)
        requires
            self.inv(),
        ensures
            r is None <==> !has_id(self.requests(), id),
            r is Some ==> *r->Some_0 == self.requests()[index_of_id(self.requests(), id)].1,
    {
        match self.find_index(id) {
            Some(i) => Some(&self.requests[i].1),
            None => None,
        }
    }

    /// Admits an individual account that is one of the signers.
    pub fn authorize(&self, sender: &Address) -> (r: Result<AccountAddress, ErrorOnReceive>)
        ensures
            r == guard(self.signers(), *sender),
    {
        match sender {
            Address::Contract(_) => Err(ErrorOnReceive::NotUserAccount),
            Address::Account(a) => {
                if contains_account(&self.init_params.signers, a) {
                    Ok(*a)
                } else {
                    Err(ErrorOnReceive::NotRegisteredAccount)
                }
            },
        }
    }
}

} // verus!
