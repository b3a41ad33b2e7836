use vstd::prelude::*;

verus! {

broadcast use vstd::array::group_array_axioms;

/// The address of an individual account on the ledger.
#[derive(Clone, Copy, Debug)]
pub struct AccountAddress(pub [u8; 32]);

impl PartialEq for AccountAddress {
    fn eq(&self, o: &AccountAddress) -> (r: bool)
        ensures
            r == (*self == *o),
    {
        let mut i: usize = 0;
        while i < 32
            invariant
                0 <= i <= 32,
                forall|k: int| 0 <= k < i ==> self.0[k] == o.0[k],
            decreases 32 - i,
        {
            if self.0[i] != o.0[i] {
                return false;
            }
            i = i + 1;
        }
        assert(self.0 =~= o.0);
        true
    }
}

impl vstd::std_specs::cmp::PartialEqSpecImpl for AccountAddress {
    open spec fn obeys_eq_spec() -> bool {
        true
    }

    open spec fn eq_spec(&self, o: &AccountAddress) -> bool {
        *self == *o
    }
}

impl Eq for AccountAddress {
}

/// The address of a smart contract instance.
#[derive(Clone, Copy, Debug, PartialEq, Eq, Structural)]
pub struct ContractAddress {
    pub index: u64,
    pub subindex: u64,
}

/// The identity of whoever invoked an action: an individual account or another contract.
#[derive(Clone, Copy, Debug)]
pub enum Address {
    Account(AccountAddress),
    Contract(ContractAddress),
}

/// An identifier that a proposer picks for a transfer request.
pub type RequestId = u64;

/// Why initialisation was refused.
#[derive(Clone, Copy, Debug, PartialEq, Eq, Structural)]
pub enum Error {
    /// The parameter could not be parsed.
    ParseParams,
    /// Fewer than three distinct signers were given.
    IncompleteAccounts,
    /// The quorum asks for more approvals than there are signers.
    AccountsLessThanSupportNeeded,
}

/// Why an action on a running instance was refused.
#[derive(Clone, Copy, Debug, PartialEq, Eq, Structural)]
pub enum ErrorOnReceive {
    /// The parameter could not be parsed, or no matching request exists.
    ParseParams,
    /// The caller is not one of the signers.
    NotRegisteredAccount,
    /// The request has expired.
    TimedOut,
    /// The receiving account does not exist.
    InvalidRecipient,
    /// A request with this id is already active, or the caller already approved it.
    AlreadyExists,
    /// The funds do not cover the transfer.
    InsufficientBalance,
    /// The caller is a contract, not an individual account.
    NotUserAccount,
    /// The expiry time does not fit in a timestamp.
    Overflow,
}

/// Why the ledger refused to carry out a transfer.
#[derive(Clone, Copy, Debug, PartialEq, Eq, Structural)]
pub enum TransferError {
    /// The amount exceeds the funds held.
    AmountTooLarge,
    /// The destination account does not exist.
    MissingAccount,
}

/// The error that an action reports when its transfer was refused.
pub open spec fn transfer_failure(e: TransferError) -> ErrorOnReceive {
    match e {
        TransferError::AmountTooLarge => ErrorOnReceive::InsufficientBalance,
        TransferError::MissingAccount => ErrorOnReceive::InvalidRecipient,
    }
}

impl From<TransferError> for ErrorOnReceive {
    fn from(e: TransferError) -> (r: ErrorOnReceive)
        ensures
            r == transfer_failure(e),
    {
        match e {
            TransferError::AmountTooLarge => ErrorOnReceive::InsufficientBalance,
            TransferError::MissingAccount => ErrorOnReceive::InvalidRecipient,
        }
    }
}

impl vstd::std_specs::convert::FromSpecImpl<TransferError> for ErrorOnReceive {
    open spec fn obeys_from_spec() -> bool {
        true
    }

    open spec fn from_spec(e: TransferError) -> ErrorOnReceive {
        transfer_failure(e)
    }
}

/// An action on a running instance: the amount in micro-units, the receiving
/// account and the request id.
#[derive(Clone, Copy, Debug)]
pub enum RequestAction {
    /// Propose a new transfer request.
    SeekTransfer(u64, AccountAddress, RequestId),
    /// Approve an existing transfer request.
    AcceptTransfer(u64, AccountAddress, RequestId),
}

} // verus!
