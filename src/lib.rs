//! Multi-party transfer authorization: a fixed group of signers jointly holds
//! funds and releases a transfer only once a quorum of them has approved it
//! before it expires.

pub mod laws;
pub mod state;
pub mod types;

pub use state::{InitialiseParams, Receipt, Request, State};
pub use types::{
    transfer_failure, AccountAddress, Address, ContractAddress, Error, ErrorOnReceive, RequestAction,
    RequestId, TransferError,
};
