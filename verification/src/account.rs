//! A snapshot of the chain's accounts, as the pool consults it.

use vstd::prelude::*;
use crate::primitives::{effective_account, effective_account_spec, AccountDetails, Address};

verus! {

/// One resolved account.
#[derive(Clone, Copy)]
struct AccountRow {
    address: Address,
    details: AccountDetails,
}

/// The accounts that `rows` record, a later row overriding an earlier one of
/// the same address.
spec fn accounts_of(rows: Seq<AccountRow>) -> Map<Address, AccountDetails>
    decreases rows.len(),
{
    if rows.len() == 0 {
        Map::empty()
    } else {
        accounts_of(rows.drop_last()).insert(rows.last().address, rows.last().details)
    }
}

/// What `accounts` says of `address`.
pub open spec fn resolved(accounts: Map<Address, AccountDetails>, address: Address) -> Option<AccountDetails> {
    if accounts.contains_key(address) {
        Some(accounts[address])
    } else {
        None
    }
}

/// The details of an account from what the chain answered when asked for
/// its sequence number and its balance. Both questions must have been
/// answered, as they are when asked of a block that the chain itself named.
pub fn answered_details(seq: Option<u64>, balance: Option<u64>) -> (details: AccountDetails)
    requires
        seq is Some,
        balance is Some,
    ensures
        details == (AccountDetails { seq: seq->0, balance: balance->0 }),
{
    AccountDetails { seq: seq.unwrap(), balance: balance.unwrap() }
}

/// Sequence numbers and balances of accounts as of one block: a fixed
/// mapping from address to details that stands for the chain while the pool
/// works.
pub struct AccountSnapshot {
    rows: Vec<AccountRow>,
}

impl View for AccountSnapshot {
    type V = Map<Address, AccountDetails>;

    closed spec fn view(&self) -> Map<Address, AccountDetails> {
        accounts_of(self.rows@)
    }
}

impl AccountSnapshot {
    /// A snapshot that resolves no account.
    pub fn new() -> (snapshot: Self)
        ensures
            snapshot@ == Map::<Address, AccountDetails>::empty(),
    {
        AccountSnapshot { rows: Vec::new() }
    }

    /// Records that `address` resolves to `details`, in place of what was
    /// recorded for it before.
    pub fn insert(&mut self, address: Address, details: AccountDetails)
        ensures
            final(self)@ == old(self)@.insert(address, details),
    {
        self.rows.push(AccountRow { address, details });
        proof {
            assert(self.rows@.drop_last() == old(self).rows@);
        }
    }

    /// The details of `address`, if the snapshot resolves it.
    pub fn resolve(&self, address: Address) -> (details: Option<AccountDetails>)
        ensures
            details == resolved(self@, address),
    {
        let mut i: usize = self.rows.len();
        proof {
            assert(self.rows@.take(i as int) == self.rows@);
        }
        while i > 0
            invariant
                i <= self.rows.len(),
                resolved(accounts_of(self.rows@), address) == resolved(accounts_of(self.rows@.take(i as int)), address),
            decreases i,
        {
            i -= 1;
            proof {
                assert(self.rows@.take(i + 1).drop_last() == self.rows@.take(i as int));
                assert(self.rows@.take(i + 1).last() == self.rows@[i as int]);
            }
            if self.rows[i].address == address {
                return Some(self.rows[i].details);
            }
        }
        None
    }

    /// The details that govern transactions signed by `signer`: those of the
    /// owner of the regular key where the signer is one, those of the signer
    /// itself otherwise.
    pub fn fetch_account(&self, signer: Address, regular_key_owner: Option<Address>) -> (details: Option<
        AccountDetails,
    >)
        ensures
            details == resolved(self@, effective_account_spec(signer, regular_key_owner)),
    {
        self.resolve(effective_account(signer, regular_key_owner))
    }
}

} // verus!
