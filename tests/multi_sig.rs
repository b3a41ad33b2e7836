use multi_sig::{
    AccountAddress, Address, ContractAddress, Error, ErrorOnReceive, InitialiseParams, Receipt,
    RequestAction, State, TransferError,
};

fn acct(n: u8) -> AccountAddress {
    AccountAddress([n; 32])
}

fn user(n: u8) -> Address {
    Address::Account(acct(n))
}

const SECOND: u64 = 1000;

fn three_signers(min: u16) -> State {
    let params = InitialiseParams {
        timeout: 100 * SECOND,
        signers: vec![acct(1), acct(2), acct(3)],
        min_signers_req: min,
    };
    match State::init(params) {
        Ok(s) => s,
        Err(e) => panic!("init failed: {:?}", e),
    }
}

fn seek(amount: u64, to: u8, id: u64) -> RequestAction {
    RequestAction::SeekTransfer(amount, acct(to), id)
}

fn accept(amount: u64, to: u8, id: u64) -> RequestAction {
    RequestAction::AcceptTransfer(amount, acct(to), id)
}

#[test]
fn init_accepts_three_signers() {
    let s = three_signers(2);
    assert_eq!(s.signer_count(), 3);
    assert_eq!(s.quorum(), 2);
    assert_eq!(s.timeout_duration(), 100 * SECOND);
    assert_eq!(s.request_count(), 0);
    assert!(s.is_signer(&acct(2)));
    assert!(!s.is_signer(&acct(9)));
}

#[test]
fn init_rejects_two_signers() {
    let params = InitialiseParams {
        timeout: 10,
        signers: vec![acct(1), acct(2)],
        min_signers_req: 2,
    };
    assert_eq!(State::init(params).err(), Some(Error::IncompleteAccounts));
}

#[test]
fn init_counts_repeated_signers_once() {
    let params = InitialiseParams {
        timeout: 10,
        signers: vec![acct(1), acct(2), acct(1), acct(2)],
        min_signers_req: 2,
    };
    assert_eq!(State::init(params).err(), Some(Error::IncompleteAccounts));
    let params = InitialiseParams {
        timeout: 10,
        signers: vec![acct(1), acct(2), acct(1), acct(3)],
        min_signers_req: 3,
    };
    let s = State::init(params).ok().unwrap();
    assert_eq!(s.signer_count(), 3);
}

#[test]
fn init_rejects_quorum_above_signers() {
    let params = InitialiseParams {
        timeout: 10,
        signers: vec![acct(1), acct(2), acct(3)],
        min_signers_req: 4,
    };
    assert_eq!(State::init(params).err(), Some(Error::AccountsLessThanSupportNeeded));
    let params = InitialiseParams {
        timeout: 10,
        signers: vec![acct(1), acct(2)],
        min_signers_req: 3,
    };
    assert_eq!(State::init(params).err(), Some(Error::AccountsLessThanSupportNeeded));
}

#[test]
fn guard_rejects_contracts_and_strangers() {
    let mut s = three_signers(2);
    let contract = Address::Contract(ContractAddress { index: 4, subindex: 0 });
    assert_eq!(s.authorize(&contract), Err(ErrorOnReceive::NotUserAccount));
    assert_eq!(s.authorize(&user(7)), Err(ErrorOnReceive::NotRegisteredAccount));
    assert_eq!(s.authorize(&user(3)), Ok(acct(3)));
    assert_eq!(s.message(&contract, 0, 100, 0, seek(5, 9, 1)), Err(ErrorOnReceive::NotUserAccount));
    assert_eq!(s.message(&user(7), 0, 100, 0, seek(5, 9, 1)), Err(ErrorOnReceive::NotRegisteredAccount));
    assert_eq!(s.request_count(), 0);
}

#[test]
fn quorum_of_two_releases_transfer() {
    let mut s = three_signers(2);
    assert_eq!(s.message(&user(1), 0, 50, 0, seek(50, 4, 1)), Ok(Receipt::Recorded));
    let r = s.request(1).unwrap();
    assert_eq!(r.expiry, 100 * SECOND);
    assert_eq!(r.amount, 50);
    assert_eq!(r.sender_account, acct(1));
    assert_eq!(r.accounts_in_aggrement, vec![acct(1)]);
    assert_eq!(s.message(&user(2), 0, 50, 10 * SECOND, accept(50, 4, 1)), Ok(Receipt::Transfer(acct(4), 50)));
    assert_eq!(s.complete_transfer(1, Ok(())), Ok(()));
    assert!(s.request(1).is_none());
    assert_eq!(s.message(&user(3), 0, 0, 20 * SECOND, accept(50, 4, 1)), Err(ErrorOnReceive::ParseParams));
}

#[test]
fn expired_request_times_out_then_is_swept() {
    let mut s = three_signers(2);
    assert_eq!(s.message(&user(1), 0, 80, 0, seek(30, 4, 2)), Ok(Receipt::Recorded));
    assert_eq!(s.message(&user(2), 0, 80, 150 * SECOND, accept(30, 4, 2)), Err(ErrorOnReceive::TimedOut));
    assert_eq!(s.request_count(), 1);
    assert_eq!(s.message(&user(3), 0, 80, 150 * SECOND, seek(10, 5, 3)), Ok(Receipt::Recorded));
    assert!(s.request(2).is_none());
    assert_eq!(s.request_count(), 1);
    assert_eq!(s.message(&user(2), 0, 80, 150 * SECOND, accept(30, 4, 2)), Err(ErrorOnReceive::ParseParams));
}

#[test]
fn expiry_instant_counts_as_expired() {
    let mut s = three_signers(2);
    s.message(&user(1), 0, 80, 0, seek(30, 4, 2)).unwrap();
    assert_eq!(s.message(&user(2), 0, 80, 100 * SECOND, accept(30, 4, 2)), Err(ErrorOnReceive::TimedOut));
    assert_eq!(
        s.message(&user(2), 0, 80, 100 * SECOND - 1, accept(30, 4, 2)),
        Ok(Receipt::Transfer(acct(4), 30))
    );
}

#[test]
fn duplicate_active_id_is_rejected() {
    let mut s = three_signers(2);
    s.message(&user(1), 0, 100, 0, seek(10, 4, 7)).unwrap();
    assert_eq!(s.message(&user(2), 0, 100, 5, seek(10, 4, 7)), Err(ErrorOnReceive::AlreadyExists));
    assert_eq!(s.request(7).unwrap().sender_account, acct(1));
    assert_eq!(s.message(&user(2), 0, 100, 100 * SECOND, seek(10, 4, 7)), Ok(Receipt::Recorded));
    assert_eq!(s.request(7).unwrap().sender_account, acct(2));
    assert_eq!(s.request_count(), 1);
}

#[test]
fn balance_check_subtracts_reserved_funds() {
    let mut s = three_signers(2);
    assert_eq!(s.message(&user(1), 10, 50, 0, seek(60, 4, 1)), Ok(Receipt::Recorded));
    assert_eq!(s.reserved_balance(0), 60);
    assert_eq!(s.message(&user(1), 10, 50, 0, seek(1, 4, 2)), Err(ErrorOnReceive::InsufficientBalance));
    assert_eq!(s.message(&user(1), 11, 50, 0, seek(1, 4, 2)), Ok(Receipt::Recorded));
    assert_eq!(s.reserved_balance(0), 61);
    assert_eq!(s.message(&user(1), 0, 60, 0, seek(1, 4, 3)), Err(ErrorOnReceive::InsufficientBalance));
    assert_eq!(s.request_count(), 2);
}

#[test]
fn failed_proposal_keeps_expired_requests() {
    let mut s = three_signers(2);
    s.message(&user(1), 0, 100, 0, seek(40, 4, 1)).unwrap();
    assert_eq!(s.message(&user(2), 0, 10, 200 * SECOND, seek(40, 4, 2)), Err(ErrorOnReceive::InsufficientBalance));
    assert_eq!(s.request_count(), 1);
    assert_eq!(s.reserved_balance(200 * SECOND), 0);
}

#[test]
fn expiry_overflow_is_rejected() {
    let mut s = three_signers(2);
    let now = u64::MAX - 100 * SECOND + 1;
    assert_eq!(s.message(&user(1), 0, 100, now, seek(1, 4, 1)), Err(ErrorOnReceive::Overflow));
    assert_eq!(s.message(&user(1), 0, 100, now - 1, seek(1, 4, 1)), Ok(Receipt::Recorded));
    assert_eq!(s.request(1).unwrap().expiry, u64::MAX);
}

#[test]
fn second_approval_by_same_signer_is_rejected() {
    let mut s = three_signers(3);
    s.message(&user(1), 0, 100, 0, seek(10, 4, 1)).unwrap();
    assert_eq!(s.message(&user(1), 0, 100, 1, accept(10, 4, 1)), Err(ErrorOnReceive::AlreadyExists));
    assert_eq!(s.message(&user(2), 0, 100, 1, accept(10, 4, 1)), Ok(Receipt::Recorded));
    assert_eq!(s.request(1).unwrap().accounts_in_aggrement, vec![acct(1), acct(2)]);
    assert_eq!(s.message(&user(2), 0, 100, 2, accept(10, 4, 1)), Err(ErrorOnReceive::AlreadyExists));
    assert_eq!(s.request(1).unwrap().accounts_in_aggrement.len(), 2);
}

#[test]
fn quorum_of_three_needs_third_approval() {
    let mut s = three_signers(3);
    s.message(&user(1), 0, 100, 0, seek(10, 4, 1)).unwrap();
    assert_eq!(s.message(&user(2), 0, 100, 1, accept(10, 4, 1)), Ok(Receipt::Recorded));
    assert!(s.request(1).is_some());
    assert_eq!(s.message(&user(3), 0, 100, 2, accept(10, 4, 1)), Ok(Receipt::Transfer(acct(4), 10)));
    assert_eq!(s.request(1).unwrap().accounts_in_aggrement.len(), 2);
    assert_eq!(s.complete_transfer(1, Ok(())), Ok(()));
    assert_eq!(s.request_count(), 0);
}

#[test]
fn approval_must_name_amount_and_receiver() {
    let mut s = three_signers(2);
    s.message(&user(1), 0, 100, 0, seek(10, 4, 1)).unwrap();
    assert_eq!(s.message(&user(2), 0, 100, 1, accept(11, 4, 1)), Err(ErrorOnReceive::ParseParams));
    assert_eq!(s.message(&user(2), 0, 100, 1, accept(10, 5, 1)), Err(ErrorOnReceive::ParseParams));
    assert_eq!(s.message(&user(2), 0, 100, 1, accept(10, 4, 9)), Err(ErrorOnReceive::ParseParams));
}

#[test]
fn refused_transfer_keeps_request() {
    let mut s = three_signers(2);
    s.message(&user(1), 0, 100, 0, seek(10, 4, 1)).unwrap();
    assert_eq!(s.message(&user(2), 0, 100, 1, accept(10, 4, 1)), Ok(Receipt::Transfer(acct(4), 10)));
    assert_eq!(s.complete_transfer(1, Err(TransferError::AmountTooLarge)), Err(ErrorOnReceive::InsufficientBalance));
    assert_eq!(s.request(1).unwrap().accounts_in_aggrement, vec![acct(1)]);
    assert_eq!(s.complete_transfer(1, Err(TransferError::MissingAccount)), Err(ErrorOnReceive::InvalidRecipient));
    assert_eq!(s.request_count(), 1);
}

#[test]
fn transfer_errors_convert() {
    assert_eq!(ErrorOnReceive::from(TransferError::AmountTooLarge), ErrorOnReceive::InsufficientBalance);
    assert_eq!(ErrorOnReceive::from(TransferError::MissingAccount), ErrorOnReceive::InvalidRecipient);
}

#[test]
fn cancel_only_by_proposer_while_open() {
    let mut s = three_signers(2);
    s.message(&user(1), 0, 100, 0, seek(10, 4, 1)).unwrap();
    s.message(&user(2), 0, 100, 0, seek(10, 4, 2)).unwrap();
    assert_eq!(s.cancel_request(&user(3), 5), Err(ErrorOnReceive::ParseParams));
    assert_eq!(s.cancel_request(&user(9), 5), Err(ErrorOnReceive::NotRegisteredAccount));
    let contract = Address::Contract(ContractAddress { index: 1, subindex: 2 });
    assert_eq!(s.cancel_request(&contract, 5), Err(ErrorOnReceive::NotUserAccount));
    assert_eq!(s.cancel_request(&user(2), 100 * SECOND), Err(ErrorOnReceive::ParseParams));
    assert_eq!(s.request_count(), 2);
    assert_eq!(s.cancel_request(&user(2), 5), Ok(()));
    assert!(s.request(2).is_none());
    assert!(s.request(1).is_some());
    assert_eq!(s.cancel_request(&user(2), 5), Err(ErrorOnReceive::ParseParams));
}

#[test]
fn prune_removes_expired_and_sums_the_rest() {
    let mut s = three_signers(2);
    s.message(&user(1), 0, 1000, 0, seek(10, 4, 1)).unwrap();
    s.message(&user(1), 0, 1000, 50 * SECOND, seek(20, 4, 2)).unwrap();
    s.message(&user(1), 0, 1000, 60 * SECOND, seek(30, 4, 3)).unwrap();
    assert_eq!(s.reserved_balance(0), 60);
    assert_eq!(s.prune_expired(120 * SECOND), 50);
    assert_eq!(s.request_count(), 2);
    assert!(s.request(1).is_none());
    assert_eq!(s.prune_expired(120 * SECOND), 50);
    assert_eq!(s.request_count(), 2);
    assert_eq!(s.prune_expired(155 * SECOND), 30);
    assert_eq!(s.request_count(), 1);
}

#[test]
fn large_amounts_sum_without_overflow() {
    let mut s = three_signers(2);
    s.message(&user(1), u64::MAX, u64::MAX, 0, seek(u64::MAX, 4, 1)).unwrap();
    s.message(&user(1), u64::MAX, u64::MAX, 0, seek(u64::MAX, 4, 2)).unwrap();
    assert_eq!(s.reserved_balance(0), 2 * (u64::MAX as u128));
    assert_eq!(
        s.message(&user(1), u64::MAX, u64::MAX, 0, seek(1, 4, 3)),
        Err(ErrorOnReceive::InsufficientBalance)
    );
}

fn stored(amount: u64, from: u8, approvers: Vec<u8>, expiry: u64) -> multi_sig::Request {
    multi_sig::Request {
        amount,
        sender_account: acct(from),
        accounts_in_aggrement: approvers.into_iter().map(acct).collect(),
        receiver: acct(4),
        expiry,
    }
}

fn params(min: u16) -> InitialiseParams {
    InitialiseParams { timeout: 100 * SECOND, signers: vec![acct(1), acct(2), acct(3)], min_signers_req: min }
}

#[test]
fn saved_state_restores() {
    let mut s = three_signers(3);
    s.message(&user(1), 0, 100, 0, seek(10, 4, 1)).unwrap();
    s.message(&user(2), 0, 100, 0, accept(10, 4, 1)).unwrap();
    let (p, reqs) = s.into_parts();
    assert_eq!(p.signers.len(), 3);
    assert_eq!(reqs.len(), 1);
    let mut t = State::restore(p, reqs).ok().unwrap();
    assert_eq!(t.request(1).unwrap().accounts_in_aggrement, vec![acct(1), acct(2)]);
    assert_eq!(t.message(&user(3), 0, 100, 1, accept(10, 4, 1)), Ok(Receipt::Transfer(acct(4), 10)));
}

#[test]
fn restore_refuses_inconsistent_requests() {
    let dup = vec![(1, stored(5, 1, vec![1], 10)), (1, stored(5, 2, vec![2], 10))];
    assert_eq!(State::restore(params(2), dup).err(), Some(Error::ParseParams));
    let stranger = vec![(1, stored(5, 1, vec![1, 9], 10))];
    assert_eq!(State::restore(params(3), stranger).err(), Some(Error::ParseParams));
    let no_sender = vec![(1, stored(5, 1, vec![2], 10))];
    assert_eq!(State::restore(params(3), no_sender).err(), Some(Error::ParseParams));
    let repeated = vec![(1, stored(5, 1, vec![1, 1], 10))];
    assert_eq!(State::restore(params(3), repeated).err(), Some(Error::ParseParams));
    let at_quorum = vec![(1, stored(5, 1, vec![1, 2], 10))];
    assert_eq!(State::restore(params(2), at_quorum).err(), Some(Error::ParseParams));
    let fine = vec![(1, stored(5, 1, vec![1, 2], 10)), (2, stored(5, 3, vec![3], 10))];
    assert_eq!(State::restore(params(3), fine).ok().unwrap().request_count(), 2);
    assert_eq!(State::restore(params(4), Vec::new()).err(), Some(Error::AccountsLessThanSupportNeeded));
}

#[test]
fn expiry_is_checked_before_amount_and_receiver() {
    let mut s = three_signers(2);
    s.message(&user(1), 0, 100, 0, seek(10, 4, 1)).unwrap();
    assert_eq!(s.message(&user(2), 0, 100, 100 * SECOND, accept(99, 5, 1)), Err(ErrorOnReceive::TimedOut));
    assert_eq!(s.request_count(), 1);
}

#[test]
fn repeated_approval_is_checked_before_amount_and_receiver() {
    let mut s = three_signers(3);
    s.message(&user(1), 0, 100, 0, seek(10, 4, 1)).unwrap();
    assert_eq!(s.message(&user(1), 0, 100, 1, accept(99, 5, 1)), Err(ErrorOnReceive::AlreadyExists));
    s.message(&user(2), 0, 100, 1, accept(10, 4, 1)).unwrap();
    assert_eq!(s.message(&user(2), 0, 100, 2, accept(11, 4, 1)), Err(ErrorOnReceive::AlreadyExists));
    assert_eq!(s.message(&user(3), 0, 100, 2, accept(11, 4, 1)), Err(ErrorOnReceive::ParseParams));
}
