//! The mathematical model of the transaction pool: what a well-formed pool is,
//! which of its entries are current, and how each operation changes it.

use vstd::prelude::*;
use crate::error::Error;
use crate::miner::TransactionImportResult;
use crate::primitives::{AccountDetails, Address, Transaction, TxHash};

verus! {

/// Where a transaction came from.
#[derive(Clone, Copy, Debug, PartialEq, Eq, Structural)]
pub enum Origin {
    /// Submitted by the node's owner.
    Local,
    /// Received from the network, or returned to the pool by a retracted block.
    External,
}

/// A pending transaction with the pool's bookkeeping: where it came from, the
/// stamp of its arrival, and the on-chain details of its sender as last
/// resolved.
#[derive(Clone, Copy, Debug, PartialEq, Eq, Structural)]
pub struct PoolEntry {
    pub tx: Transaction,
    pub origin: Origin,
    pub arrival: u64,
    pub account: AccountDetails,
}

/// `e` is the entry of `sender` at sequence number `seq`.
pub open spec fn keyed(e: PoolEntry, sender: Address, seq: u64) -> bool {
    e.tx.sender == sender && e.tx.seq == seq
}

/// The pool holds an entry of `sender` at `seq`.
pub open spec fn holds(es: Seq<PoolEntry>, sender: Address, seq: u64) -> bool {
    exists|i: int| 0 <= i < es.len() && #[trigger] keyed(es[i], sender, seq)
}

/// Every sequence number from `base` up to `seq` is held for `sender`.
pub open spec fn run_reaches(es: Seq<PoolEntry>, sender: Address, base: u64, seq: u64) -> bool {
    forall|k: u64| base <= k <= seq ==> #[trigger] holds(es, sender, k)
}

/// An entry is current when nothing is missing between its sender's on-chain
/// sequence number and its own; otherwise it is future.
pub open spec fn is_current(es: Seq<PoolEntry>, e: PoolEntry) -> bool {
    run_reaches(es, e.tx.sender, e.account.seq, e.tx.seq)
}

/// `a` outranks `b`: it pays the higher fee, or the same fee and arrived
/// earlier. The entry that every other outranks is the first to be evicted.
pub open spec fn outranks(a: PoolEntry, b: PoolEntry) -> bool {
    a.tx.fee > b.tx.fee || (a.tx.fee == b.tx.fee && a.arrival < b.arrival)
}

/// How far an entry lies above its sender's on-chain sequence number.
pub open spec fn height(e: PoolEntry) -> int {
    e.tx.seq - e.account.seq
}

/// `a` is listed before `b`: the entry nearer to its sender's on-chain
/// sequence number first, so that the entries of one sender follow their
/// sequence numbers; among entries equally near, the one that outranks the
/// other.
pub open spec fn listed_before(a: PoolEntry, b: PoolEntry) -> bool {
    height(a) < height(b) || (height(a) == height(b) && outranks(a, b))
}

/// The invariant of the pool's entries, which stand in arrival order:
/// arrival stamps strictly increase, no two entries share sender and sequence
/// number, no entry lies below its sender's on-chain sequence number, and all
/// entries of one sender carry the same account details.
#[verifier::opaque]
pub open spec fn well_formed(es: Seq<PoolEntry>) -> bool {
    &&& forall|i: int, j: int|
        0 <= i < j < es.len() ==> (#[trigger] es[i]).arrival < (#[trigger] es[j]).arrival
    &&& forall|i: int, j: int|
        0 <= i < j < es.len() ==> !keyed(#[trigger] es[i], (#[trigger] es[j]).tx.sender, es[j].tx.seq)
    &&& forall|i: int| 0 <= i < es.len() ==> (#[trigger] es[i]).account.seq <= es[i].tx.seq
    &&& forall|i: int, j: int|
        0 <= i < es.len() && 0 <= j < es.len() && (#[trigger] es[i]).tx.sender == (#[trigger] es[j]).tx.sender
            ==> es[i].account == es[j].account
}

/// Every arrival stamp in `es` lies below `clock`.
pub open spec fn stamped_below(es: Seq<PoolEntry>, clock: u64) -> bool {
    forall|i: int| 0 <= i < es.len() ==> (#[trigger] es[i]).arrival < clock
}

/// What becomes of an entry when its sender's account is resolved anew: it is
/// dropped where the account cannot be resolved or has moved past it, and
/// carries the new details otherwise.
pub open spec fn refresh_entry(e: PoolEntry, details: Option<AccountDetails>) -> Option<PoolEntry> {
    match details {
        Some(d) => if d.seq <= e.tx.seq {
            Some(PoolEntry { account: d, ..e })
        } else {
            None
        },
        None => None,
    }
}

/// The entries after each has been refreshed with what `chain` says of its
/// sender, in their old order.
pub open spec fn resynced(es: Seq<PoolEntry>, chain: spec_fn(PoolEntry) -> Option<AccountDetails>) -> Seq<PoolEntry>
    decreases es.len(),
{
    if es.len() == 0 {
        Seq::empty()
    } else {
        let rest = resynced(es.drop_last(), chain);
        match refresh_entry(es.last(), chain(es.last())) {
            Some(e) => rest.push(e),
            None => rest,
        }
    }
}

/// A chain view that resolves `sender` to `details` and leaves every other
/// account as the pool last saw it.
pub open spec fn one_account(sender: Address, details: AccountDetails) -> spec_fn(PoolEntry) -> Option<AccountDetails> {
    |e: PoolEntry| if e.tx.sender == sender { Some(details) } else { Some(e.account) }
}

/// A chain view that resolves each sender as `accounts` has it, and no
/// sender that `accounts` lacks.
pub open spec fn snapshot_chain(accounts: Map<Address, AccountDetails>) -> spec_fn(PoolEntry) -> Option<
    AccountDetails,
> {
    |e: PoolEntry| if accounts.contains_key(e.tx.sender) { Some(accounts[e.tx.sender]) } else { None }
}

/// A chain view that resolves no sender of a transaction whose hash is among
/// `hashes`, and leaves every other account as the pool last saw it.
pub open spec fn without_hashes(hashes: Seq<TxHash>) -> spec_fn(PoolEntry) -> Option<AccountDetails> {
    |e: PoolEntry| if hashes.contains(e.tx.hash) { None } else { Some(e.account) }
}

/// Two entries of one sender that the pool saw alike are resolved alike
/// where both are resolved.
pub open spec fn coherent(chain: spec_fn(PoolEntry) -> Option<AccountDetails>) -> bool {
    forall|a: PoolEntry, b: PoolEntry|
        a.tx.sender == b.tx.sender && a.account == b.account && (#[trigger] chain(a)) is Some && (#[trigger] chain(
            b,
        )) is Some ==> chain(a) == chain(b)
}

/// Each refreshed entry stems from an entry of the old pool, later ones from
/// later ones; nothing is added.
pub proof fn lemma_resynced_origin(es: Seq<PoolEntry>, chain: spec_fn(PoolEntry) -> Option<AccountDetails>)
    ensures
        resynced(es, chain).len() <= es.len(),
        forall|k: int|
            0 <= k < resynced(es, chain).len() ==> exists|i: int|
                k <= i < es.len() && refresh_entry(#[trigger] es[i], chain(es[i])) == Some(
                    #[trigger] resynced(es, chain)[k],
                ),
    decreases es.len(),
{
    if es.len() > 0 {
        let rest = es.drop_last();
        lemma_resynced_origin(rest, chain);
        let out = resynced(es, chain);
        assert forall|k: int| 0 <= k < out.len() implies exists|i: int|
            k <= i < es.len() && refresh_entry(#[trigger] es[i], chain(es[i])) == Some(#[trigger] out[k]) by {
            if k < resynced(rest, chain).len() {
                let i = choose|i: int|
                    k <= i < rest.len() && refresh_entry(#[trigger] rest[i], chain(rest[i])) == Some(
                        resynced(rest, chain)[k],
                    );
                assert(es[i] == rest[i]);
            } else {
                assert(refresh_entry(es[es.len() - 1], chain(es[es.len() - 1])) == Some(out[k]));
            }
        }
    }
}

/// An entry that survives a refresh is found in the refreshed pool.
pub proof fn lemma_resynced_keeps(es: Seq<PoolEntry>, chain: spec_fn(PoolEntry) -> Option<AccountDetails>, i: int)
    requires
        0 <= i < es.len(),
        refresh_entry(es[i], chain(es[i])) is Some,
    ensures
        resynced(es, chain).contains(refresh_entry(es[i], chain(es[i])).unwrap()),
    decreases es.len(),
{
    let rest = es.drop_last();
    let out = resynced(es, chain);
    if i == es.len() - 1 {
        assert(out[out.len() - 1] == refresh_entry(es[i], chain(es[i])).unwrap());
    } else {
        lemma_resynced_keeps(rest, chain, i);
        assert(rest[i] == es[i]);
        let e = refresh_entry(es[i], chain(es[i])).unwrap();
        let k = choose|k: int| 0 <= k < resynced(rest, chain).len() && resynced(rest, chain)[k] == e;
        assert(out[k] == e);
    }
}

/// Refreshing keeps the pool well formed and its stamps below the clock.
pub proof fn lemma_resynced_well_formed(
    es: Seq<PoolEntry>,
    chain: spec_fn(PoolEntry) -> Option<AccountDetails>,
    clock: u64,
)
    requires
        well_formed(es),
        stamped_below(es, clock),
        coherent(chain),
    ensures
        well_formed(resynced(es, chain)),
        stamped_below(resynced(es, chain), clock),
    decreases es.len(),
{
    reveal(well_formed);
    let out = resynced(es, chain);
    lemma_resynced_origin(es, chain);
    if es.len() > 0 {
        let rest = es.drop_last();
        assert forall|i: int| 0 <= i < rest.len() implies rest[i] == es[i] by {}
        lemma_resynced_well_formed(rest, chain, clock);
        lemma_resynced_origin(rest, chain);
        let inner = resynced(rest, chain);
        assert forall|k: int| 0 <= k < out.len() implies (#[trigger] out[k]).arrival < clock
            && out[k].account.seq <= out[k].tx.seq by {
            let i = choose|i: int|
                k <= i < es.len() && refresh_entry(#[trigger] es[i], chain(es[i])) == Some(out[k]);
        }
        assert forall|k: int, l: int| 0 <= k < l < out.len() implies (#[trigger] out[k]).arrival < (
        #[trigger] out[l]).arrival && !keyed(out[k], out[l].tx.sender, out[l].tx.seq) by {
            if l < inner.len() {
                assert(out[k] == inner[k] && out[l] == inner[l]);
            } else {
                let i = choose|i: int|
                    k <= i < rest.len() && refresh_entry(#[trigger] rest[i], chain(rest[i])) == Some(inner[k]);
                assert(out[k] == inner[k]);
                assert(refresh_entry(es[es.len() - 1], chain(es[es.len() - 1])) == Some(out[l]));
                assert(es[i].arrival < es[es.len() - 1].arrival);
            }
        }
        assert forall|k: int, l: int|
            0 <= k < out.len() && 0 <= l < out.len() && (#[trigger] out[k]).tx.sender == (
            #[trigger] out[l]).tx.sender implies out[k].account == out[l].account by {
            let i = choose|i: int|
                k <= i < es.len() && refresh_entry(#[trigger] es[i], chain(es[i])) == Some(out[k]);
            let j = choose|j: int|
                l <= j < es.len() && refresh_entry(#[trigger] es[j], chain(es[j])) == Some(out[l]);
            assert(es[i].account == es[j].account);
            assert(chain(es[i]) == chain(es[j]));
        }
    }
}

/// After `sender` has been resolved to `details`, each of its surviving
/// entries carries `details`, and none of them lies below `details.seq`.
pub proof fn lemma_one_account_effect(es: Seq<PoolEntry>, sender: Address, details: AccountDetails)
    requires
        well_formed(es),
    ensures
        forall|k: int|
            0 <= k < resynced(es, one_account(sender, details)).len() && (#[trigger] resynced(
                es,
                one_account(sender, details),
            )[k]).tx.sender == sender ==> resynced(es, one_account(sender, details))[k].account == details,
        forall|seq: u64|
            details.seq <= seq ==> (#[trigger] holds(resynced(es, one_account(sender, details)), sender, seq)
                <==> holds(es, sender, seq)),
{
    reveal(well_formed);
    let chain = one_account(sender, details);
    let out = resynced(es, chain);
    lemma_resynced_origin(es, chain);
    assert forall|k: int| 0 <= k < out.len() && (#[trigger] out[k]).tx.sender == sender implies out[k].account
        == details by {
        let i = choose|i: int| k <= i < es.len() && refresh_entry(#[trigger] es[i], chain(es[i])) == Some(out[k]);
    }
    assert forall|seq: u64| details.seq <= seq implies (#[trigger] holds(out, sender, seq) <==> holds(
        es,
        sender,
        seq,
    )) by {
        if holds(out, sender, seq) {
            let k = choose|k: int| 0 <= k < out.len() && #[trigger] keyed(out[k], sender, seq);
            let i = choose|i: int|
                k <= i < es.len() && refresh_entry(#[trigger] es[i], chain(es[i])) == Some(out[k]);
            assert(keyed(es[i], sender, seq));
        }
        if holds(es, sender, seq) {
            let i = choose|i: int| 0 <= i < es.len() && #[trigger] keyed(es[i], sender, seq);
            lemma_resynced_keeps(es, chain, i);
            let e = refresh_entry(es[i], chain(es[i])).unwrap();
            let k = choose|k: int| 0 <= k < out.len() && out[k] == e;
            assert(keyed(out[k], sender, seq));
        }
    }
}

/// Removing an entry keeps the pool well formed.
pub proof fn lemma_remove_well_formed(es: Seq<PoolEntry>, i: int, clock: u64)
    requires
        well_formed(es),
        stamped_below(es, clock),
        0 <= i < es.len(),
    ensures
        well_formed(es.remove(i)),
        stamped_below(es.remove(i), clock),
{
    reveal(well_formed);
    let out = es.remove(i);
    assert forall|k: int| 0 <= k < out.len() implies #[trigger] out[k] == es[if k < i { k } else { k + 1 }] by {}
}

/// After an entry has been removed the pool holds what it held before, but
/// for that entry's place.
pub proof fn lemma_remove_holds(es: Seq<PoolEntry>, i: int)
    requires
        well_formed(es),
        0 <= i < es.len(),
    ensures
        forall|sender: Address, seq: u64|
            #[trigger] holds(es.remove(i), sender, seq) <==> holds(es, sender, seq) && !keyed(es[i], sender, seq),
{
    reveal(well_formed);
    let out = es.remove(i);
    assert forall|k: int| 0 <= k < out.len() implies #[trigger] out[k] == es[if k < i { k } else { k + 1 }] by {}
    assert forall|sender: Address, seq: u64| #[trigger]
        holds(out, sender, seq) <==> holds(es, sender, seq) && !keyed(es[i], sender, seq) by {
        if holds(out, sender, seq) {
            let k = choose|k: int| 0 <= k < out.len() && #[trigger] keyed(out[k], sender, seq);
            let j = if k < i { k } else { k + 1 };
            assert(keyed(es[j], sender, seq));
            if keyed(es[i], sender, seq) {
                if j < i {
                    assert(!keyed(es[j], es[i].tx.sender, es[i].tx.seq));
                } else {
                    assert(!keyed(es[i], es[j].tx.sender, es[j].tx.seq));
                }
            }
        }
        if holds(es, sender, seq) && !keyed(es[i], sender, seq) {
            let j = choose|j: int| 0 <= j < es.len() && #[trigger] keyed(es[j], sender, seq);
            let k = if j < i { j } else { j - 1 };
            assert(keyed(out[k], sender, seq));
        }
    }
}

/// Appending an entry keeps the pool well formed where the entry is stamped
/// with the clock, its place is free, it does not lie below its sender's
/// on-chain sequence number, and the sender's other entries carry the same
/// account details.
pub proof fn lemma_push_well_formed(es: Seq<PoolEntry>, e: PoolEntry, clock: u64)
    requires
        well_formed(es),
        stamped_below(es, clock),
        e.arrival == clock,
        clock < u64::MAX,
        !holds(es, e.tx.sender, e.tx.seq),
        e.account.seq <= e.tx.seq,
        forall|k: int| 0 <= k < es.len() && (#[trigger] es[k]).tx.sender == e.tx.sender ==> es[k].account == e.account,
    ensures
        well_formed(es.push(e)),
        stamped_below(es.push(e), (clock + 1) as u64),
{
    reveal(well_formed);
    let out = es.push(e);
    assert forall|i: int, j: int| 0 <= i < j < out.len() implies !keyed(
        #[trigger] out[i],
        (#[trigger] out[j]).tx.sender,
        out[j].tx.seq,
    ) by {
        if j == es.len() {
            assert(keyed(es[i], e.tx.sender, e.tx.seq) ==> holds(es, e.tx.sender, e.tx.seq));
        }
    }
}

/// After an entry has been appended the pool holds what it held before and
/// that entry's place.
pub proof fn lemma_push_holds(es: Seq<PoolEntry>, e: PoolEntry)
    ensures
        forall|sender: Address, seq: u64|
            #[trigger] holds(es.push(e), sender, seq) <==> holds(es, sender, seq) || keyed(e, sender, seq),
{
    let out = es.push(e);
    assert forall|sender: Address, seq: u64| #[trigger]
        holds(out, sender, seq) <==> holds(es, sender, seq) || keyed(e, sender, seq) by {
        if holds(out, sender, seq) {
            let k = choose|k: int| 0 <= k < out.len() && #[trigger] keyed(out[k], sender, seq);
            if k < es.len() {
                assert(keyed(es[k], sender, seq));
            }
        }
        if holds(es, sender, seq) {
            let k = choose|k: int| 0 <= k < es.len() && #[trigger] keyed(es[k], sender, seq);
            assert(keyed(out[k], sender, seq));
        }
        if keyed(e, sender, seq) {
            assert(keyed(out[es.len() as int], sender, seq));
        }
    }
}

/// Putting a new entry in the place of the entry at `i` keeps the pool well
/// formed where the new entry is stamped with the clock, takes the key of the
/// entry that leaves or a free one, and agrees with its sender's other
/// entries on the account details.
pub proof fn lemma_replace_well_formed(es: Seq<PoolEntry>, i: int, e: PoolEntry, clock: u64)
    requires
        well_formed(es),
        stamped_below(es, clock),
        0 <= i < es.len(),
        e.arrival == clock,
        clock < u64::MAX,
        keyed(es[i], e.tx.sender, e.tx.seq) || !holds(es, e.tx.sender, e.tx.seq),
        e.account.seq <= e.tx.seq,
        forall|k: int| 0 <= k < es.len() && (#[trigger] es[k]).tx.sender == e.tx.sender ==> es[k].account == e.account,
    ensures
        well_formed(es.remove(i).push(e)),
        stamped_below(es.remove(i).push(e), (clock + 1) as u64),
{
    let mid = es.remove(i);
    lemma_remove_well_formed(es, i, clock);
    lemma_remove_holds(es, i);
    assert forall|k: int| 0 <= k < mid.len() implies #[trigger] mid[k] == es[if k < i { k } else { k + 1 }] by {}
    lemma_push_well_formed(mid, e, clock);
}

/// The place of the entry of `sender` at `seq`.
pub open spec fn slot(es: Seq<PoolEntry>, sender: Address, seq: u64) -> int {
    choose|i: int| 0 <= i < es.len() && #[trigger] keyed(es[i], sender, seq)
}

/// In a well-formed pool an entry's place is the only one with its key.
pub proof fn lemma_slot_unique(es: Seq<PoolEntry>, i: int)
    requires
        well_formed(es),
        0 <= i < es.len(),
    ensures
        slot(es, es[i].tx.sender, es[i].tx.seq) == i,
{
    reveal(well_formed);
    let sender = es[i].tx.sender;
    let seq = es[i].tx.seq;
    assert(keyed(es[i], sender, seq));
    let j = slot(es, sender, seq);
    if j < i {
        assert(!keyed(es[j], es[i].tx.sender, es[i].tx.seq));
    } else if i < j {
        assert(!keyed(es[i], es[j].tx.sender, es[j].tx.seq));
    }
}

/// Some entry of the pool is future.
pub open spec fn has_future(es: Seq<PoolEntry>) -> bool {
    exists|i: int| 0 <= i < es.len() && !#[trigger] is_current(es, es[i])
}

/// The entry is among those that make room first: the future entries while
/// there are any, every entry otherwise.
pub open spec fn expendable(es: Seq<PoolEntry>, e: PoolEntry) -> bool {
    has_future(es) ==> !is_current(es, e)
}

/// The entry at `v` is the one to evict: it is expendable, and every other
/// expendable entry outranks it.
pub open spec fn is_victim(es: Seq<PoolEntry>, v: int) -> bool {
    &&& 0 <= v < es.len()
    &&& expendable(es, es[v])
    &&& forall|j: int| 0 <= j < es.len() && j != v && #[trigger] expendable(es, es[j]) ==> outranks(es[j], es[v])
}

/// The place of the entry to evict: the lowest fee among the future entries,
/// or among all entries where none is future; the latest arrival among equal
/// fees.
pub open spec fn victim(es: Seq<PoolEntry>) -> int {
    choose|v: int| is_victim(es, v)
}

/// A well-formed pool has at most one entry to evict.
pub proof fn lemma_victim_unique(es: Seq<PoolEntry>, v: int)
    requires
        well_formed(es),
        is_victim(es, v),
    ensures
        victim(es) == v,
{
    reveal(well_formed);
    let w = victim(es);
    if w != v {
        assert(outranks(es[w], es[v]));
        assert(outranks(es[v], es[w]));
        if w < v {
            assert(es[w].arrival < es[v].arrival);
        } else {
            assert(es[v].arrival < es[w].arrival);
        }
    }
}

/// The entries after the entry to evict has left, time and again, until no
/// more than `limit` are left.
pub open spec fn evicted_to(es: Seq<PoolEntry>, limit: usize) -> Seq<PoolEntry>
    decreases es.len(),
{
    let v = victim(es);
    if es.len() <= limit || !(0 <= v < es.len()) {
        es
    } else {
        evicted_to(es.remove(v), limit)
    }
}

/// Why a transaction that has passed the checks on its sender, fee and
/// sequence number still finds no place among `es`: the entry in its place
/// has a fee that it does not exceed, or the pool is full and the entry to
/// evict has one.
pub open spec fn place_refused(es: Seq<PoolEntry>, limit: usize, tx: Transaction) -> Option<Error> {
    if holds(es, tx.sender, tx.seq) {
        if tx.fee > es[slot(es, tx.sender, tx.seq)].tx.fee {
            None
        } else {
            Some(Error::Underpriced)
        }
    } else if es.len() < limit {
        None
    } else if es.len() > 0 && tx.fee > es[victim(es)].tx.fee {
        None
    } else {
        Some(Error::PoolFull)
    }
}

/// The entries once room has been made for `tx`: the entry in its place
/// leaves, or, in a full pool, the entry to evict.
pub open spec fn vacated(es: Seq<PoolEntry>, limit: usize, tx: Transaction) -> Seq<PoolEntry> {
    if holds(es, tx.sender, tx.seq) {
        es.remove(slot(es, tx.sender, tx.seq))
    } else if es.len() < limit {
        es
    } else {
        es.remove(victim(es))
    }
}

/// The state of the pool as contracts see it.
pub struct PoolState {
    /// The entries in arrival order.
    pub entries: Seq<PoolEntry>,
    /// The stamp that the next arrival gets.
    pub clock: u64,
    /// The greatest number of entries that the pool keeps.
    pub limit: usize,
    /// The lowest fee that the pool admits.
    pub min_fee: u64,
    /// The senders whose transactions are refused.
    pub malicious: Set<Address>,
    /// The senders that cannot be imprisoned.
    pub immune: Set<Address>,
}

impl PoolState {
    /// The pool's invariant: well-formed entries, stamped below the clock, no
    /// more of them than the limit.
    pub open spec fn valid(self) -> bool {
        &&& well_formed(self.entries)
        &&& stamped_below(self.entries, self.clock)
        &&& self.entries.len() <= self.limit
    }

    /// The entries once the sender of an arriving transaction has been
    /// resolved to `details`.
    pub open spec fn pruned(self, tx: Transaction, details: AccountDetails) -> Seq<PoolEntry> {
        resynced(self.entries, one_account(tx.sender, details))
    }

    /// Why `tx` is turned away before the pool looks for a place: a banned
    /// sender first, then a fee below the minimum, then a stale sequence
    /// number.
    pub open spec fn turned_away(self, tx: Transaction, details: AccountDetails) -> Option<Error> {
        if self.malicious.contains(tx.sender) {
            Some(Error::SenderBanned)
        } else if tx.fee < self.min_fee {
            Some(Error::Underpriced)
        } else if tx.seq < details.seq {
            Some(Error::StaleSequence)
        } else {
            None
        }
    }

    /// Why `tx` is refused, if it is.
    pub open spec fn rejection(self, tx: Transaction, details: AccountDetails) -> Option<Error> {
        if self.turned_away(tx, details) is Some {
            self.turned_away(tx, details)
        } else {
            place_refused(self.pruned(tx, details), self.limit, tx)
        }
    }

    /// The entry that an admitted transaction becomes.
    pub open spec fn arriving(self, tx: Transaction, details: AccountDetails, origin: Origin) -> PoolEntry {
        PoolEntry { tx, origin, arrival: self.clock, account: details }
    }

    /// The entries after `tx` has been admitted: the sender's account is
    /// refreshed, room is made, and the new entry is appended.
    pub open spec fn admitted(self, tx: Transaction, details: AccountDetails, origin: Origin) -> Seq<PoolEntry> {
        vacated(self.pruned(tx, details), self.limit, tx).push(self.arriving(tx, details, origin))
    }

    /// The pool after an import of `tx`: unchanged where `tx` is refused.
    pub open spec fn after_import(self, tx: Transaction, details: AccountDetails, origin: Origin) -> PoolState {
        if self.rejection(tx, details) is Some {
            self
        } else {
            PoolState { entries: self.admitted(tx, details, origin), clock: (self.clock + 1) as u64, ..self }
        }
    }

    /// The pool after each of `txs` whose sender `accounts` resolves has been
    /// imported in turn, as a transaction from outside, with the details that
    /// `accounts` gives; one that is refused leaves the pool as it was.
    pub open spec fn after_returns(self, txs: Seq<Transaction>, accounts: Map<Address, AccountDetails>) -> PoolState
        decreases txs.len(),
    {
        if txs.len() == 0 {
            self
        } else {
            let before = self.after_returns(txs.drop_last(), accounts);
            let tx = txs.last();
            if accounts.contains_key(tx.sender) {
                before.after_import(tx, accounts[tx.sender], Origin::External)
            } else {
                before
            }
        }
    }

    /// The pool after the chain has changed: every entry is refreshed with
    /// what `accounts` says of its sender, then the transactions of the
    /// retracted blocks return.
    pub open spec fn reconciled(self, retracted: Seq<Transaction>, accounts: Map<Address, AccountDetails>) -> PoolState {
        PoolState { entries: resynced(self.entries, snapshot_chain(accounts)), ..self }.after_returns(
            retracted,
            accounts,
        )
    }

    /// The pool after each of `prisoners` that is not immune has been put
    /// into the malicious set.
    pub open spec fn imprisoned(self, prisoners: Set<Address>) -> PoolState {
        PoolState { malicious: self.malicious.union(prisoners.difference(self.immune)), ..self }
    }

    /// The pool after each of `prisoners` has been taken out of the malicious
    /// set.
    pub open spec fn released(self, prisoners: Set<Address>) -> PoolState {
        PoolState { malicious: self.malicious.difference(prisoners), ..self }
    }

    /// The pool after each of `users` has been put into the immune set. The
    /// malicious set stays as it is.
    pub open spec fn immunised(self, users: Set<Address>) -> PoolState {
        PoolState { immune: self.immune.union(users), ..self }
    }

    /// What an import of `tx` reports: the reason of the refusal, or the
    /// partition in which the new entry stands.
    pub open spec fn import_result(self, tx: Transaction, details: AccountDetails, origin: Origin) -> Result<
        TransactionImportResult,
        Error,
    > {
        match self.rejection(tx, details) {
            Some(error) => Err(error),
            None => if is_current(self.admitted(tx, details, origin), self.arriving(tx, details, origin)) {
                Ok(TransactionImportResult::Current)
            } else {
                Ok(TransactionImportResult::Future)
            },
        }
    }
}

/// `x` is one of the first `n` entries and stands in the asked partition.
pub open spec fn drawn(es: Seq<PoolEntry>, n: int, current: bool, x: PoolEntry) -> bool {
    exists|j: int| 0 <= j < n && j < es.len() && #[trigger] es[j] == x && is_current(es, x) == current
}

/// `list` holds exactly those of the first `n` entries that stand in the
/// asked partition, each once, in the order that `listed_before` gives.
pub open spec fn lists_first(es: Seq<PoolEntry>, n: int, current: bool, list: Seq<PoolEntry>) -> bool {
    &&& forall|k: int| 0 <= k < list.len() ==> drawn(es, n, current, #[trigger] list[k])
    &&& forall|k: int, l: int| 0 <= k < l < list.len() ==> listed_before(#[trigger] list[k], #[trigger] list[l])
    &&& forall|j: int|
        0 <= j < n && j < es.len() && is_current(es, es[j]) == current ==> #[trigger] list.contains(es[j])
}

/// `list` is the listing of a partition of the pool: all its entries, by
/// their distance from the sender's on-chain sequence number, then by fee,
/// the higher first, then by arrival, the earlier first.
pub open spec fn is_listing(es: Seq<PoolEntry>, current: bool, list: Seq<PoolEntry>) -> bool {
    lists_first(es, es.len() as int, current, list)
}

/// The listing of the current entries (`current` is true) or of the future
/// entries of the pool.
pub open spec fn listing(es: Seq<PoolEntry>, current: bool) -> Seq<PoolEntry> {
    choose|list: Seq<PoolEntry>| is_listing(es, current, list)
}

/// Two listings of one partition agree on their first `n` entries.
proof fn lemma_listings_agree_up_to(es: Seq<PoolEntry>, current: bool, a: Seq<PoolEntry>, b: Seq<PoolEntry>, n: int)
    requires
        is_listing(es, current, a),
        is_listing(es, current, b),
        0 <= n <= a.len(),
    ensures
        n <= b.len(),
        forall|k: int| 0 <= k < n ==> a[k] == b[k],
    decreases n,
{
    if n > 0 {
        let k = n - 1;
        lemma_listings_agree_up_to(es, current, a, b, k);
        assert(drawn(es, es.len() as int, current, a[k]));
        let j = choose|j: int| 0 <= j < es.len() && #[trigger] es[j] == a[k] && is_current(es, a[k]) == current;
        assert(b.contains(es[j]));
        let m = choose|m: int| 0 <= m < b.len() && b[m] == a[k];
        if m < k {
            assert(listed_before(a[m], a[k]));
        }
        assert(drawn(es, es.len() as int, current, b[k]));
        let i = choose|i: int| 0 <= i < es.len() && #[trigger] es[i] == b[k] && is_current(es, b[k]) == current;
        assert(a.contains(es[i]));
        let w = choose|w: int| 0 <= w < a.len() && a[w] == b[k];
        if w < k {
            assert(listed_before(b[w], b[k]));
        }
        if m > k && w > k {
            assert(listed_before(b[k], b[m]));
            assert(listed_before(a[k], a[w]));
        }
    }
}

/// A partition of the pool has one listing only.
pub proof fn lemma_listing_unique(es: Seq<PoolEntry>, current: bool, list: Seq<PoolEntry>)
    requires
        is_listing(es, current, list),
    ensures
        listing(es, current) == list,
{
    let other = listing(es, current);
    lemma_listings_agree_up_to(es, current, list, other, list.len() as int);
    lemma_listings_agree_up_to(es, current, other, list, other.len() as int);
    assert(other =~= list);
}

/// The transactions of the entries of `list`, in the same order.
pub open spec fn transactions_of(list: Seq<PoolEntry>) -> Seq<Transaction> {
    Seq::new(list.len(), |k: int| list[k].tx)
}

/// Where a page that is asked to start at `start` begins in a listing of
/// `len` items.
pub open spec fn page_start(len: nat, start: u64) -> int {
    if start <= len {
        start as int
    } else {
        len as int
    }
}

/// Where a page that is asked for as `start..end` ends in a listing of `len`
/// items.
pub open spec fn page_end(len: nat, start: u64, end: u64) -> int {
    if end <= page_start(len, start) {
        page_start(len, start)
    } else if end <= len {
        end as int
    } else {
        len as int
    }
}

/// The part of `list` that the index range `start..end` asks for.
pub open spec fn page(list: Seq<PoolEntry>, start: u64, end: u64) -> Seq<PoolEntry> {
    list.subrange(page_start(list.len(), start), page_end(list.len(), start, end))
}

} // verus!
