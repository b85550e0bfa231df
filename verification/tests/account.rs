use miner_core::account::answered_details;
use miner_core::primitives::effective_account;
use miner_core::{AccountDetails, AccountSnapshot, Address};

fn address(n: u128) -> Address {
    Address { head: 1, tail: n }
}

#[test]
fn an_empty_snapshot_resolves_nothing() {
    let snapshot = AccountSnapshot::new();
    assert_eq!(snapshot.resolve(address(1)), None);
}

#[test]
fn a_snapshot_resolves_what_was_inserted() {
    let mut snapshot = AccountSnapshot::new();
    snapshot.insert(address(1), AccountDetails { seq: 5, balance: 10 });
    snapshot.insert(address(2), AccountDetails { seq: 6, balance: 20 });
    assert_eq!(snapshot.resolve(address(1)), Some(AccountDetails { seq: 5, balance: 10 }));
    assert_eq!(snapshot.resolve(address(2)), Some(AccountDetails { seq: 6, balance: 20 }));
    assert_eq!(snapshot.resolve(address(3)), None);
    assert_eq!(snapshot.resolve(Address { head: 2, tail: 1 }), None);
}

#[test]
fn a_later_insert_overrides_an_earlier_one() {
    let mut snapshot = AccountSnapshot::new();
    snapshot.insert(address(1), AccountDetails { seq: 5, balance: 10 });
    snapshot.insert(address(2), AccountDetails { seq: 6, balance: 20 });
    snapshot.insert(address(1), AccountDetails { seq: 7, balance: 0 });
    assert_eq!(snapshot.resolve(address(1)), Some(AccountDetails { seq: 7, balance: 0 }));
    assert_eq!(snapshot.resolve(address(2)), Some(AccountDetails { seq: 6, balance: 20 }));
}

#[test]
fn a_regular_key_is_redirected_to_its_owner() {
    assert_eq!(effective_account(address(1), None), address(1));
    assert_eq!(effective_account(address(1), Some(address(2))), address(2));
    let mut snapshot = AccountSnapshot::new();
    snapshot.insert(address(1), AccountDetails { seq: 5, balance: 10 });
    snapshot.insert(address(2), AccountDetails { seq: 6, balance: 20 });
    assert_eq!(snapshot.fetch_account(address(1), None), Some(AccountDetails { seq: 5, balance: 10 }));
    assert_eq!(snapshot.fetch_account(address(1), Some(address(2))), Some(AccountDetails { seq: 6, balance: 20 }));
    assert_eq!(snapshot.fetch_account(address(1), Some(address(3))), None);
    assert_eq!(snapshot.fetch_account(address(3), Some(address(1))), Some(AccountDetails { seq: 5, balance: 10 }));
}

#[test]
fn answered_lookups_give_the_details() {
    assert_eq!(answered_details(Some(7), Some(9)), AccountDetails { seq: 7, balance: 9 });
    assert_eq!(answered_details(Some(0), Some(u64::MAX)), AccountDetails { seq: 0, balance: u64::MAX });
}
