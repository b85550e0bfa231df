//! The pool's work on its entries: finding, refreshing, listing, and making
//! room.

use vstd::prelude::*;
use crate::account::{resolved, AccountSnapshot};
use crate::error::Error;
use crate::pool_model::{
    drawn, expendable, has_future, holds, is_current, is_listing, is_victim, keyed, lemma_listing_unique,
    lemma_slot_unique, lemma_victim_unique, listed_before, listing, lists_first, one_account, outranks, page,
    place_refused,
    resynced, snapshot_chain, transactions_of, vacated, well_formed, without_hashes, PoolEntry,
};
use crate::primitives::{AccountDetails, Address, Transaction, TxHash};

verus! {

/// Looks for the entry of `sender` at `seq`.
pub(crate) fn find(es: &Vec<PoolEntry>, sender: Address, seq: u64) -> (found: Option<usize>)
    ensures
        match found {
            Some(i) => i < es.len() && keyed(es@[i as int], sender, seq),
            None => !holds(es@, sender, seq),
        },
{
    let mut i: usize = 0;
    while i < es.len()
        invariant
            i <= es.len(),
            forall|j: int| 0 <= j < i ==> !#[trigger] keyed(es@[j], sender, seq),
        decreases es.len() - i,
    {
        if es[i].tx.sender == sender && es[i].tx.seq == seq {
            return Some(i);
        }
        i += 1;
    }
    None
}

/// Tells whether the entry at `i` is current.
pub(crate) fn check_current(es: &Vec<PoolEntry>, i: usize) -> (current: bool)
    requires
        i < es.len(),
        es@[i as int].account.seq <= es@[i as int].tx.seq,
    ensures
        current == is_current(es@, es@[i as int]),
{
    let e = es[i];
    let mut k: u64 = e.account.seq;
    while k < e.tx.seq
        invariant
            e == es@[i as int],
            e.account.seq <= k <= e.tx.seq,
            forall|m: u64| e.account.seq <= m < k ==> #[trigger] holds(es@, e.tx.sender, m),
        decreases e.tx.seq - k,
    {
        if find(es, e.tx.sender, k).is_none() {
            return false;
        }
        k += 1;
    }
    proof {
        assert(keyed(es@[i as int], e.tx.sender, e.tx.seq));
    }
    true
}

/// Tells for each entry whether it is current.
pub(crate) fn partition_flags(es: &Vec<PoolEntry>) -> (flags: Vec<bool>)
    requires
        well_formed(es@),
    ensures
        flags@.len() == es@.len(),
        forall|i: int| 0 <= i < es@.len() ==> #[trigger] flags@[i] == is_current(es@, es@[i]),
{
    let mut flags: Vec<bool> = Vec::new();
    let mut i: usize = 0;
    while i < es.len()
        invariant
            well_formed(es@),
            i <= es.len(),
            flags@.len() == i,
            forall|j: int| 0 <= j < i ==> #[trigger] flags@[j] == is_current(es@, es@[j]),
        decreases es.len() - i,
    {
        proof {
            reveal(well_formed);
        }
        let current = check_current(es, i);
        flags.push(current);
        i += 1;
    }
    flags
}

/// The entries after `sender` has been resolved to `details`.
pub(crate) fn resync_one(es: &Vec<PoolEntry>, sender: Address, details: AccountDetails) -> (out: Vec<PoolEntry>)
    requires
        well_formed(es@),
    ensures
        out@ == resynced(es@, one_account(sender, details)),
{
    let ghost chain = one_account(sender, details);
    let mut out: Vec<PoolEntry> = Vec::new();
    let mut i: usize = 0;
    while i < es.len()
        invariant
            i <= es.len(),
            well_formed(es@),
            chain == one_account(sender, details),
            out@ == resynced(es@.take(i as int), chain),
        decreases es.len() - i,
    {
        let e = es[i];
        let ghost prefix = es@.take(i + 1);
        proof {
            reveal(well_formed);
            assert(prefix.drop_last() == es@.take(i as int));
            assert(prefix.last() == e);
            assert(chain(e) == if e.tx.sender == sender { Some(details) } else { Some(e.account) });
        }
        if e.tx.sender == sender {
            if details.seq <= e.tx.seq {
                out.push(PoolEntry { tx: e.tx, origin: e.origin, arrival: e.arrival, account: details });
            }
        } else {
            proof {
                assert(PoolEntry { account: e.account, ..e } == e);
            }
            out.push(e);
        }
        i += 1;
    }
    proof {
        assert(es@.take(es@.len() as int) == es@);
    }
    out
}

/// Finds the entry to evict from a pool that is not empty.
pub(crate) fn find_victim(es: &Vec<PoolEntry>) -> (v: usize)
    requires
        well_formed(es@),
        es@.len() > 0,
    ensures
        is_victim(es@, v as int),
{
    let flags = partition_flags(es);
    let mut any_future = false;
    let mut i: usize = 0;
    while i < es.len()
        invariant
            i <= es.len(),
            flags@.len() == es@.len(),
            forall|j: int| 0 <= j < es@.len() ==> #[trigger] flags@[j] == is_current(es@, es@[j]),
            any_future <==> exists|j: int| 0 <= j < i && !#[trigger] is_current(es@, es@[j]),
        decreases es.len() - i,
    {
        if !flags[i] {
            any_future = true;
        }
        i += 1;
    }
    assert(any_future == has_future(es@));
    let mut v: usize = 0;
    let mut chosen = false;
    let mut i: usize = 0;
    while i < es.len()
        invariant
            well_formed(es@),
            i <= es.len(),
            flags@.len() == es@.len(),
            forall|j: int| 0 <= j < es@.len() ==> #[trigger] flags@[j] == is_current(es@, es@[j]),
            any_future == has_future(es@),
            chosen ==> v < i && expendable(es@, es@[v as int]),
            chosen ==> forall|j: int|
                0 <= j < i && j != v && #[trigger] expendable(es@, es@[j]) ==> outranks(es@[j], es@[v as int]),
            !chosen ==> forall|j: int| 0 <= j < i ==> !#[trigger] expendable(es@, es@[j]),
        decreases es.len() - i,
    {
        if !any_future || !flags[i] {
            if !chosen {
                v = i;
                chosen = true;
            } else {
                let a = es[v];
                let b = es[i];
                proof {
                    reveal(well_formed);
                    assert(es@[v as int].arrival < es@[i as int].arrival);
                }
                if a.tx.fee >= b.tx.fee {
                    v = i;
                }
            }
        }
        i += 1;
    }
    proof {
        if !chosen {
            if any_future {
                let j = choose|j: int| 0 <= j < es@.len() && !#[trigger] is_current(es@, es@[j]);
                assert(!expendable(es@, es@[j]));
            } else {
                assert(!expendable(es@, es@[0]));
            }
        }
    }
    v
}

/// Makes room for `tx` among entries that its sender's account has been
/// refreshed for: removes the entry in its place or, where the pool is full,
/// the entry to evict, unless the fee of `tx` does not exceed that entry's.
pub(crate) fn make_room(es: &mut Vec<PoolEntry>, limit: usize, tx: Transaction) -> (refused: Option<Error>)
    requires
        well_formed(old(es)@),
    ensures
        refused == place_refused(old(es)@, limit, tx),
        refused is Some ==> final(es)@ == old(es)@,
        refused is None ==> final(es)@ == vacated(old(es)@, limit, tx),
{
    match find(es, tx.sender, tx.seq) {
        Some(i) => {
            proof {
                lemma_slot_unique(es@, i as int);
            }
            if es[i].tx.fee >= tx.fee {
                return Some(Error::Underpriced);
            }
            es.remove(i);
            None
        },
        None => {
            if es.len() >= limit {
                if es.len() == 0 {
                    return Some(Error::PoolFull);
                }
                let v = find_victim(es);
                proof {
                    lemma_victim_unique(es@, v as int);
                }
                if tx.fee <= es[v].tx.fee {
                    return Some(Error::PoolFull);
                }
                es.remove(v);
            }
            None
        },
    }
}

/// Tells whether `a` is listed before `b`.
pub(crate) fn goes_before(a: PoolEntry, b: PoolEntry) -> (before: bool)
    ensures
        before == listed_before(a, b),
{
    let left: u128 = a.tx.seq as u128 + b.account.seq as u128;
    let right: u128 = b.tx.seq as u128 + a.account.seq as u128;
    left < right || (left == right && (a.tx.fee > b.tx.fee || (a.tx.fee == b.tx.fee && a.arrival < b.arrival)))
}

/// Lists the entries of one partition in the order that `listed_before`
/// gives.
pub(crate) fn list_partition(es: &Vec<PoolEntry>, current: bool) -> (list: Vec<PoolEntry>)
    requires
        well_formed(es@),
    ensures
        list@ == listing(es@, current),
        is_listing(es@, current, list@),
        listing(es@, current).len() <= usize::MAX,
{
    let flags = partition_flags(es);
    let mut list: Vec<PoolEntry> = Vec::new();
    let mut i: usize = 0;
    while i < es.len()
        invariant
            well_formed(es@),
            i <= es.len(),
            flags@.len() == es@.len(),
            forall|j: int| 0 <= j < es@.len() ==> #[trigger] flags@[j] == is_current(es@, es@[j]),
            lists_first(es@, i as int, current, list@),
        decreases es.len() - i,
    {
        if flags[i] == current {
            let e = es[i];
            let mut p: usize = 0;
            while p < list.len() && goes_before(list[p], e)
                invariant
                    p <= list.len(),
                    forall|k: int| 0 <= k < p ==> listed_before(#[trigger] list@[k], e),
                decreases list.len() - p,
            {
                p += 1;
            }
            let ghost before = list@;
            list.insert(p, e);
            proof {
                reveal(well_formed);
                assert forall|k: int| 0 <= k < list@.len() implies #[trigger] list@[k] == (if k < p {
                    before[k]
                } else if k == p {
                    e
                } else {
                    before[k - 1]
                }) by {}
                assert forall|k: int| 0 <= k < before.len() implies #[trigger] listed_before(before[k], e) == (k
                    < p) by {
                    if k > p {
                        assert(listed_before(before[p as int], before[k]));
                    }
                }
                assert forall|k: int| 0 <= k < list@.len() implies drawn(
                    es@,
                    i + 1,
                    current,
                    #[trigger] list@[k],
                ) by {
                    if k == p {
                        assert(es@[i as int] == e);
                    } else {
                        let x = list@[k];
                        assert(x == before[if k < p { k } else { k - 1 }]);
                        assert(drawn(es@, i as int, current, x));
                        let j = choose|j: int|
                            0 <= j < i && j < es@.len() && #[trigger] es@[j] == x && is_current(es@, x) == current;
                        assert(es@[j] == x);
                    }
                }
                assert forall|k: int, l: int| 0 <= k < l < list@.len() implies listed_before(
                    #[trigger] list@[k],
                    #[trigger] list@[l],
                ) by {
                    if k == p {
                        assert(!listed_before(before[l - 1], e));
                        assert(before[l - 1].arrival != e.arrival) by {
                            assert(drawn(es@, i as int, current, before[l - 1]));
                        }
                    } else if l == p {
                        assert(listed_before(before[k], e));
                    } else {
                        assert(listed_before(before[if k < p { k } else { k - 1 }], before[if l < p { l } else { l - 1 }]));
                    }
                }
                assert forall|j: int|
                    0 <= j < i + 1 && j < es@.len() && is_current(es@, es@[j]) == current implies #[trigger] list@.contains(
                    es@[j],
                ) by {
                    if j == i {
                        assert(list@[p as int] == es@[j]);
                    } else {
                        assert(before.contains(es@[j]));
                        let k = choose|k: int| 0 <= k < before.len() && before[k] == es@[j];
                        assert(list@[if k < p { k } else { k + 1 }] == es@[j]);
                    }
                }
            }
        } else {
            proof {
                assert forall|k: int| 0 <= k < list@.len() implies drawn(
                    es@,
                    i + 1,
                    current,
                    #[trigger] list@[k],
                ) by {
                    let x = list@[k];
                    assert(drawn(es@, i as int, current, x));
                    let j = choose|j: int|
                        0 <= j < i && j < es@.len() && #[trigger] es@[j] == x && is_current(es@, x) == current;
                    assert(es@[j] == x);
                }
            }
        }
        i += 1;
    }
    let len = list.len();
    proof {
        lemma_listing_unique(es@, current, list@);
        assert(list@.len() == len);
    }
    list
}

/// The transactions of the part of `list` that the index range asks for.
pub(crate) fn page_of(list: &Vec<PoolEntry>, start: u64, end: u64) -> (txs: Vec<Transaction>)
    ensures
        txs@ == transactions_of(page(list@, start, end)),
{
    let len = list.len();
    let lo: usize = if start <= len as u64 { start as usize } else { len };
    let hi: usize = if end <= lo as u64 { lo } else if end <= len as u64 { end as usize } else { len };
    let mut txs: Vec<Transaction> = Vec::new();
    let mut k: usize = lo;
    while k < hi
        invariant
            lo <= k <= hi <= list.len(),
            txs@.len() == k - lo,
            forall|m: int| 0 <= m < k - lo ==> #[trigger] txs@[m] == list@[lo + m].tx,
        decreases hi - k,
    {
        txs.push(list[k].tx);
        k += 1;
    }
    proof {
        assert(txs@ =~= transactions_of(page(list@, start, end)));
    }
    txs
}

/// The entries after each has been refreshed with what `accounts` says of
/// its sender.
pub(crate) fn resync_all(es: &Vec<PoolEntry>, accounts: &AccountSnapshot) -> (out: Vec<PoolEntry>)
    ensures
        out@ == resynced(es@, snapshot_chain(accounts@)),
{
    let ghost chain = snapshot_chain(accounts@);
    let mut out: Vec<PoolEntry> = Vec::new();
    let mut i: usize = 0;
    while i < es.len()
        invariant
            i <= es.len(),
            chain == snapshot_chain(accounts@),
            out@ == resynced(es@.take(i as int), chain),
        decreases es.len() - i,
    {
        let e = es[i];
        proof {
            let prefix = es@.take(i + 1);
            assert(prefix.drop_last() == es@.take(i as int));
            assert(prefix.last() == e);
            assert(chain(e) == resolved(accounts@, e.tx.sender));
        }
        match accounts.resolve(e.tx.sender) {
            Some(details) => {
                if details.seq <= e.tx.seq {
                    out.push(PoolEntry { tx: e.tx, origin: e.origin, arrival: e.arrival, account: details });
                }
            },
            None => {},
        }
        i += 1;
    }
    proof {
        assert(es@.take(es@.len() as int) == es@);
    }
    out
}

/// Tells whether `hashes` lists `hash`.
pub(crate) fn lists_hash(hashes: &Vec<TxHash>, hash: TxHash) -> (found: bool)
    ensures
        found == hashes@.contains(hash),
{
    let mut i: usize = 0;
    while i < hashes.len()
        invariant
            i <= hashes.len(),
            forall|j: int| 0 <= j < i ==> hashes@[j] != hash,
        decreases hashes.len() - i,
    {
        if hashes[i] == hash {
            return true;
        }
        i += 1;
    }
    false
}

/// The entries without those whose transaction hash is among `hashes`.
pub(crate) fn drop_hashes(es: &Vec<PoolEntry>, hashes: &Vec<TxHash>) -> (out: Vec<PoolEntry>)
    requires
        well_formed(es@),
    ensures
        out@ == resynced(es@, without_hashes(hashes@)),
{
    let ghost chain = without_hashes(hashes@);
    let mut out: Vec<PoolEntry> = Vec::new();
    let mut i: usize = 0;
    while i < es.len()
        invariant
            i <= es.len(),
            well_formed(es@),
            chain == without_hashes(hashes@),
            out@ == resynced(es@.take(i as int), chain),
        decreases es.len() - i,
    {
        let e = es[i];
        proof {
            reveal(well_formed);
            let prefix = es@.take(i + 1);
            assert(prefix.drop_last() == es@.take(i as int));
            assert(prefix.last() == e);
            assert(chain(e) == if hashes@.contains(e.tx.hash) { None } else { Some(e.account) });
            assert(PoolEntry { account: e.account, ..e } == e);
        }
        if !lists_hash(hashes, e.tx.hash) {
            out.push(e);
        }
        i += 1;
    }
    proof {
        assert(es@.take(es@.len() as int) == es@);
    }
    out
}

/// Adds to `list` each address of `more` that neither `list` nor `except`
/// names.
pub(crate) fn add_addresses(list: &mut Vec<Address>, more: &Vec<Address>, except: &Vec<Address>)
    requires
        old(list)@.no_duplicates(),
    ensures
        final(list)@.no_duplicates(),
        final(list)@.to_set() == old(list)@.to_set().union(more@.to_set().difference(except@.to_set())),
{
    let mut i: usize = 0;
    while i < more.len()
        invariant
            i <= more.len(),
            list@.no_duplicates(),
            forall|a: Address|
                #[trigger] list@.contains(a) <==> old(list)@.contains(a) || (more@.take(i as int).contains(a)
                    && !except@.contains(a)),
        decreases more.len() - i,
    {
        let a = more[i];
        let ghost before = list@;
        let ghost seen = more@.take(i as int);
        proof {
            assert(more@.take(i + 1) == seen.push(a));
            assert forall|x: Address| #[trigger] seen.push(a).contains(x) <==> seen.contains(x) || x == a by {
                if seen.contains(x) {
                    let k = choose|k: int| 0 <= k < seen.len() && seen[k] == x;
                    assert(seen.push(a)[k] == x);
                }
                if x == a {
                    assert(seen.push(a)[seen.len() as int] == x);
                }
            }
        }
        if !lists(except, a) && !lists(list, a) {
            list.push(a);
            proof {
                assert forall|m: int, n: int| 0 <= m < list@.len() && 0 <= n < list@.len() && m != n implies list@[m]
                    != list@[n] by {
                    if m == before.len() {
                        assert(before.contains(before[n]));
                    } else if n == before.len() {
                        assert(before.contains(before[m]));
                    }
                }
                assert forall|x: Address| #[trigger] list@.contains(x) <==> before.contains(x) || x == a by {
                    if before.contains(x) {
                        let k = choose|k: int| 0 <= k < before.len() && before[k] == x;
                        assert(list@[k] == x);
                    }
                    if x == a {
                        assert(list@[before.len() as int] == x);
                    }
                }
            }
        }
        i += 1;
    }
    proof {
        assert(more@.take(more@.len() as int) == more@);
        assert(list@.to_set() =~= old(list)@.to_set().union(more@.to_set().difference(except@.to_set())));
    }
}

/// Removes from `list` each address that `gone` names.
pub(crate) fn remove_addresses(list: &mut Vec<Address>, gone: &Vec<Address>)
    requires
        old(list)@.no_duplicates(),
    ensures
        final(list)@.no_duplicates(),
        final(list)@.to_set() == old(list)@.to_set().difference(gone@.to_set()),
{
    let mut kept: Vec<Address> = Vec::new();
    let mut i: usize = 0;
    while i < list.len()
        invariant
            i <= list.len(),
            list@ == old(list)@,
            list@.no_duplicates(),
            kept@.no_duplicates(),
            forall|a: Address|
                #[trigger] kept@.contains(a) <==> list@.take(i as int).contains(a) && !gone@.contains(a),
        decreases list.len() - i,
    {
        let a = list[i];
        let ghost before = kept@;
        let ghost seen = list@.take(i as int);
        proof {
            assert(list@.take(i + 1) == seen.push(a));
            assert forall|x: Address| #[trigger] seen.push(a).contains(x) <==> seen.contains(x) || x == a by {
                if seen.contains(x) {
                    let k = choose|k: int| 0 <= k < seen.len() && seen[k] == x;
                    assert(seen.push(a)[k] == x);
                }
                if x == a {
                    assert(seen.push(a)[seen.len() as int] == x);
                }
            }
            if seen.contains(a) {
                let k = choose|k: int| 0 <= k < seen.len() && seen[k] == a;
                assert(list@[k] == list@[i as int]);
            }
        }
        if !lists(gone, a) {
            kept.push(a);
            proof {
                assert(!before.contains(a));
                assert forall|m: int, n: int| 0 <= m < kept@.len() && 0 <= n < kept@.len() && m != n implies kept@[m]
                    != kept@[n] by {
                    if m == before.len() {
                        assert(before.contains(before[n]));
                    } else if n == before.len() {
                        assert(before.contains(before[m]));
                    }
                }
                assert forall|x: Address| #[trigger] kept@.contains(x) <==> before.contains(x) || x == a by {
                    if before.contains(x) {
                        let k = choose|k: int| 0 <= k < before.len() && before[k] == x;
                        assert(kept@[k] == x);
                    }
                    if x == a {
                        assert(kept@[before.len() as int] == x);
                    }
                }
            }
        }
        i += 1;
    }
    proof {
        assert(list@.take(list@.len() as int) == list@);
        assert(kept@.to_set() =~= old(list)@.to_set().difference(gone@.to_set()));
    }
    *list = kept;
}

/// A copy of `items`.
pub(crate) fn copy_of<T: Copy>(items: &Vec<T>) -> (copy: Vec<T>)
    ensures
        copy@ == items@,
{
    let mut copy: Vec<T> = Vec::new();
    let mut i: usize = 0;
    while i < items.len()
        invariant
            i <= items.len(),
            copy@ == items@.take(i as int),
        decreases items.len() - i,
    {
        copy.push(items[i]);
        proof {
            assert(items@.take(i + 1) == items@.take(i as int).push(items@[i as int]));
        }
        i += 1;
    }
    proof {
        assert(items@.take(items@.len() as int) == items@);
    }
    copy
}

/// Tells whether `addresses` lists `address`.
pub(crate) fn lists(addresses: &Vec<Address>, address: Address) -> (found: bool)
    ensures
        found == addresses@.contains(address),
{
    let mut i: usize = 0;
    while i < addresses.len()
        invariant
            i <= addresses.len(),
            forall|j: int| 0 <= j < i ==> addresses@[j] != address,
        decreases addresses.len() - i,
    {
        if addresses[i] == address {
            return true;
        }
        i += 1;
    }
    false
}

} // verus!
