//! Plain-value identifiers and records shared by the pool, the sealing queue
//! and the miner.

use vstd::prelude::*;

verus! {

/// A 160-bit account address, split into its leading 32 bits and trailing
/// 128 bits.
#[derive(Clone, Copy, Debug, PartialEq, Eq, Structural)]
pub struct Address {
    pub head: u32,
    pub tail: u128,
}

/// A 160-bit hash, split into its leading 32 bits and trailing 128 bits.
#[derive(Clone, Copy, Debug, PartialEq, Eq, Structural)]
pub struct H160 {
    pub head: u32,
    pub tail: u128,
}

/// A 256-bit transaction hash, split into two 128-bit halves.
#[derive(Clone, Copy, Debug, PartialEq, Eq, Structural)]
pub struct TxHash {
    pub high: u128,
    pub low: u128,
}

/// A 256-bit block hash, split into two 128-bit halves.
#[derive(Clone, Copy, Debug, PartialEq, Eq, Structural)]
pub struct BlockHash {
    pub high: u128,
    pub low: u128,
}

/// The 256-bit identifier under which an asset transaction is tracked, split
/// into two 128-bit halves.
#[derive(Clone, Copy, Debug, PartialEq, Eq, Structural)]
pub struct Tracker {
    pub high: u128,
    pub low: u128,
}

/// What the chain knows of an account as of some block: the sequence number
/// its next transaction must carry, and its balance.
#[derive(Clone, Copy, Debug, PartialEq, Eq, Structural)]
pub struct AccountDetails {
    pub seq: u64,
    pub balance: u64,
}

/// The fields of a verified transaction that pool decisions read. The payload
/// stays with the caller, who finds it again by `hash`.
#[derive(Clone, Copy, Debug, PartialEq, Eq, Structural)]
pub struct Transaction {
    pub hash: TxHash,
    pub sender: Address,
    pub seq: u64,
    pub fee: u64,
}

/// The account whose sequence and balance govern transactions signed by
/// `signer`: the owner of the regular key where the signer is one, the signer
/// itself otherwise.
pub open spec fn effective_account_spec(signer: Address, regular_key_owner: Option<Address>) -> Address {
    match regular_key_owner {
        Some(owner) => owner,
        None => signer,
    }
}

/// Applies regular-key redirection to a signing address.
pub fn effective_account(signer: Address, regular_key_owner: Option<Address>) -> (account: Address)
    ensures
        account == effective_account_spec(signer, regular_key_owner),
{
    match regular_key_owner {
        Some(owner) => owner,
        None => signer,
    }
}

} // verus!
