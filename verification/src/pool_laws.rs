//! What holds of the pool whatever it contains: the laws of the partition,
//! of replacement, eviction, quarantine, listing and reorganisation, proved
//! from the model.

use vstd::prelude::*;
use crate::error::Error;
use crate::miner::TransactionImportResult;
use crate::pool_model::{
    coherent, drawn, expendable, has_future, holds, is_current, is_listing, is_victim, keyed,
    lemma_one_account_effect, lemma_push_holds, lemma_push_well_formed, lemma_remove_holds,
    lemma_replace_well_formed, lemma_resynced_origin, lemma_resynced_well_formed, lemma_slot_unique,
    listed_before, one_account, outranks, refresh_entry, resynced, run_reaches, slot, snapshot_chain, vacated,
    victim, well_formed, Origin, PoolEntry, PoolState,
};
use crate::primitives::{AccountDetails, Address, Transaction};

verus! {

/// The place of the expendable entry that all other expendable entries among
/// the first `n` outrank, or -1 where none of them is expendable.
spec fn lowest_of(es: Seq<PoolEntry>, n: int) -> int
    decreases n,
{
    if n <= 0 {
        -1
    } else {
        let rest = lowest_of(es, n - 1);
        if !expendable(es, es[n - 1]) {
            rest
        } else if rest < 0 || outranks(es[rest], es[n - 1]) {
            n - 1
        } else {
            rest
        }
    }
}

/// Among the first `n` entries, `lowest_of` is the place of the expendable
/// entry that every other expendable one outranks.
proof fn lemma_lowest_of(es: Seq<PoolEntry>, n: int)
    requires
        well_formed(es),
        0 <= n <= es.len(),
    ensures
        -1 <= lowest_of(es, n) < n,
        lowest_of(es, n) >= 0 ==> expendable(es, es[lowest_of(es, n)]),
        lowest_of(es, n) >= 0 ==> forall|j: int|
            0 <= j < n && j != lowest_of(es, n) && #[trigger] expendable(es, es[j]) ==> outranks(
                es[j],
                es[lowest_of(es, n)],
            ),
        lowest_of(es, n) < 0 ==> forall|j: int| 0 <= j < n ==> !#[trigger] expendable(es, es[j]),
    decreases n,
{
    reveal(well_formed);
    if n > 0 {
        lemma_lowest_of(es, n - 1);
        let rest = lowest_of(es, n - 1);
        if rest >= 0 {
            assert(es[rest].arrival < es[n - 1].arrival);
        }
    }
}

/// A well-formed pool that is not empty has an entry to evict.
pub proof fn lemma_victim_exists(es: Seq<PoolEntry>)
    requires
        well_formed(es),
        es.len() > 0,
    ensures
        is_victim(es, victim(es)),
{
    lemma_lowest_of(es, es.len() as int);
    let w = lowest_of(es, es.len() as int);
    if w < 0 {
        if has_future(es) {
            let j = choose|j: int| 0 <= j < es.len() && !#[trigger] is_current(es, es[j]);
            assert(expendable(es, es[j]));
        } else {
            assert(expendable(es, es[0]));
        }
    }
    assert(is_victim(es, w));
}

/// An import keeps the pool valid.
pub proof fn lemma_import_keeps_valid(s: PoolState, tx: Transaction, details: AccountDetails, origin: Origin)
    requires
        s.valid(),
        s.clock < u64::MAX,
    ensures
        s.after_import(tx, details, origin).valid(),
{
    if s.rejection(tx, details) is None {
        let pruned = s.pruned(tx, details);
        let e = s.arriving(tx, details, origin);
        lemma_resynced_well_formed(s.entries, one_account(tx.sender, details), s.clock);
        lemma_resynced_origin(s.entries, one_account(tx.sender, details));
        assert forall|k: int| 0 <= k < pruned.len() && (#[trigger] pruned[k]).tx.sender
            == tx.sender implies pruned[k].account == details by {
            lemma_one_account_effect(s.entries, tx.sender, details);
        }
        if holds(pruned, tx.sender, tx.seq) {
            lemma_replace_well_formed(pruned, slot(pruned, tx.sender, tx.seq), e, s.clock);
        } else if pruned.len() < s.limit {
            lemma_push_well_formed(pruned, e, s.clock);
        } else {
            lemma_victim_exists(pruned);
            lemma_replace_well_formed(pruned, victim(pruned), e, s.clock);
        }
    }
}

/// The pool holds an entry of `sender` at the number `at`, which is a
/// sequence number.
pub open spec fn held_at(es: Seq<PoolEntry>, sender: Address, at: int) -> bool {
    0 <= at <= u64::MAX && holds(es, sender, at as u64)
}

/// The entry of `sender` at `seq` is current, given that the chain has the
/// sender at `base`.
pub open spec fn current_at(es: Seq<PoolEntry>, sender: Address, base: u64, seq: u64) -> bool {
    holds(es, sender, seq) && run_reaches(es, sender, base, seq)
}

/// How many sequence numbers from `base` on are held for `sender` without a
/// gap, counting no further than `fuel`.
pub open spec fn run_length(es: Seq<PoolEntry>, sender: Address, base: int, fuel: nat) -> nat
    decreases fuel,
{
    if fuel == 0 || !held_at(es, sender, base) {
        0
    } else {
        1 + run_length(es, sender, base + 1, (fuel - 1) as nat)
    }
}

/// Up to its length the run is held; behind it a number is free, unless the
/// count stopped for want of fuel.
proof fn lemma_run_length(es: Seq<PoolEntry>, sender: Address, base: int, fuel: nat)
    ensures
        run_length(es, sender, base, fuel) <= fuel,
        forall|j: int| 0 <= j < run_length(es, sender, base, fuel) ==> #[trigger] held_at(es, sender, base + j),
        run_length(es, sender, base, fuel) < fuel ==> !held_at(
            es,
            sender,
            base + run_length(es, sender, base, fuel),
        ),
    decreases fuel,
{
    if fuel > 0 && held_at(es, sender, base) {
        lemma_run_length(es, sender, base + 1, (fuel - 1) as nat);
        let rest = run_length(es, sender, base + 1, (fuel - 1) as nat);
        assert forall|j: int| 0 <= j < 1 + rest implies #[trigger] held_at(es, sender, base + j) by {
            if j > 0 {
                assert(held_at(es, sender, base + 1 + (j - 1)));
            }
        }
    }
}

/// Among any `len + 1` numbers in a row, a pool of `len` entries leaves one
/// free.
proof fn lemma_some_number_is_free(es: Seq<PoolEntry>, sender: Address, base: int)
    ensures
        exists|k: int| 0 <= k <= es.len() && !#[trigger] held_at(es, sender, base + k),
    decreases es.len(),
{
    if held_at(es, sender, base) {
        let i = choose|i: int| 0 <= i < es.len() && #[trigger] keyed(es[i], sender, base as u64);
        let rest = es.remove(i);
        lemma_some_number_is_free(rest, sender, base + 1);
        let k = choose|k: int| 0 <= k <= rest.len() && !#[trigger] held_at(rest, sender, base + 1 + k);
        if held_at(es, sender, base + 1 + k) {
            let seq = (base + 1 + k) as u64;
            let j = choose|j: int| 0 <= j < es.len() && #[trigger] keyed(es[j], sender, seq);
            assert(keyed(rest[if j < i { j } else { j - 1 }], sender, seq));
        }
        assert(!held_at(es, sender, base + (k + 1)));
    } else {
        assert(!held_at(es, sender, base + 0));
    }
}

/// The current entries of one account form a range. In a well-formed pool,
/// take the sender of any entry and the sequence number at which the chain
/// has that sender. Then there is a length `n` such that the sender's
/// current entries are exactly those at the `n` sequence numbers from the
/// chain's on: none is missing in between, and, as no two entries share sender
/// and sequence number, none occurs twice.
pub proof fn lemma_current_sequences_form_a_range(es: Seq<PoolEntry>, i: int) -> (n: nat)
    requires
        well_formed(es),
        0 <= i < es.len(),
    ensures
        n <= es.len(),
        forall|seq: u64| #[trigger]
            current_at(es, es[i].tx.sender, es[i].account.seq, seq) <==> es[i].account.seq <= seq < es[i].account.seq
                + n,
        forall|j: int|
            0 <= j < es.len() && (#[trigger] es[j]).tx.sender == es[i].tx.sender ==> (is_current(es, es[j])
                <==> es[j].tx.seq < es[i].account.seq + n),
        forall|j: int, l: int|
            0 <= j < es.len() && 0 <= l < es.len() && j != l ==> !keyed(
                #[trigger] es[j],
                (#[trigger] es[l]).tx.sender,
                es[l].tx.seq,
            ),
{
    reveal(well_formed);
    let sender = es[i].tx.sender;
    let base = es[i].account.seq;
    let n = run_length(es, sender, base as int, es.len());
    lemma_run_length(es, sender, base as int, es.len());
    if n == es.len() {
        lemma_some_number_is_free(es, sender, base as int);
        let k = choose|k: int| 0 <= k <= es.len() && !#[trigger] held_at(es, sender, base + k);
        if k < n {
            assert(held_at(es, sender, base + k));
        }
    }
    assert(!held_at(es, sender, base + n));
    assert forall|seq: u64| #[trigger] current_at(es, sender, base, seq) <==> base <= seq < base + n by {
        if base <= seq < base + n {
            assert(held_at(es, sender, base + (seq - base)));
            assert forall|k: u64| base <= k <= seq implies #[trigger] holds(es, sender, k) by {
                assert(held_at(es, sender, base + (k - base)));
            }
        }
        if current_at(es, sender, base, seq) {
            let j = choose|j: int| 0 <= j < es.len() && #[trigger] keyed(es[j], sender, seq);
            assert(es[j].account == es[i].account);
            if seq >= base + n {
                assert(holds(es, sender, (base + n) as u64));
            }
        }
    }
    assert forall|j: int| 0 <= j < es.len() && (#[trigger] es[j]).tx.sender == sender implies (is_current(
        es,
        es[j],
    ) <==> es[j].tx.seq < base + n) by {
        assert(es[j].account == es[i].account);
        assert(keyed(es[j], sender, es[j].tx.seq));
        assert(is_current(es, es[j]) <==> current_at(es, sender, base, es[j].tx.seq));
    }
    assert forall|j: int, l: int| 0 <= j < es.len() && 0 <= l < es.len() && j != l implies !keyed(
        #[trigger] es[j],
        (#[trigger] es[l]).tx.sender,
        es[l].tx.seq,
    ) by {
        if l < j {
            assert(!keyed(es[l], es[j].tx.sender, es[j].tx.seq));
        }
    }
    n
}

/// The ban comes first. A transaction whose sender is in the malicious set
/// is refused as `SenderBanned` and leaves the pool as it was, whatever its
/// fee and sequence number, and whether or not the sender is immune as well.
pub proof fn lemma_banned_sender_is_refused(s: PoolState, tx: Transaction, details: AccountDetails, origin: Origin)
    requires
        s.malicious.contains(tx.sender),
    ensures
        s.import_result(tx, details, origin) == Err::<TransactionImportResult, Error>(Error::SenderBanned),
        s.after_import(tx, details, origin) == s,
{
}

/// Replace-by-fee. Where the pool holds an entry at the sender and sequence
/// number of an arriving transaction that is not turned away for its sender,
/// its fee against the minimum or a stale sequence number, the import succeeds
/// if and only if the new fee is strictly greater than the old one. Then the
/// new entry is the only one in that place; otherwise the pool stays as it
/// was and the import reports `Underpriced`. Either way the pool has as many
/// entries as before, provided that the sender's entries carry the details
/// passed in, so that none of them is dropped as stale.
pub proof fn lemma_replace_by_fee(s: PoolState, i: int, tx: Transaction, details: AccountDetails, origin: Origin)
    requires
        s.valid(),
        0 <= i < s.entries.len(),
        keyed(s.entries[i], tx.sender, tx.seq),
        s.turned_away(tx, details) is None,
    ensures
        s.import_result(tx, details, origin) is Ok <==> tx.fee > s.entries[i].tx.fee,
        tx.fee <= s.entries[i].tx.fee ==> s.import_result(tx, details, origin) == Err::<TransactionImportResult, Error>(Error::Underpriced)
            && s.after_import(tx, details, origin) == s,
        tx.fee > s.entries[i].tx.fee ==> s.after_import(tx, details, origin).entries.last() == s.arriving(
            tx,
            details,
            origin,
        ) && !holds(s.after_import(tx, details, origin).entries.drop_last(), tx.sender, tx.seq),
        s.entries[i].account == details ==> s.after_import(tx, details, origin).entries.len() == s.entries.len(),
{
    reveal(well_formed);
    if s.entries[i].account == details {
        lemma_refresh_same_is_identity(s.entries, tx.sender, details);
    }
    let chain = one_account(tx.sender, details);
    let pruned = s.pruned(tx, details);
    lemma_one_account_effect(s.entries, tx.sender, details);
    lemma_resynced_origin(s.entries, chain);
    lemma_resynced_well_formed(s.entries, chain, s.clock);
    assert(holds(s.entries, tx.sender, tx.seq));
    assert(holds(pruned, tx.sender, tx.seq));
    let k = slot(pruned, tx.sender, tx.seq);
    let j = choose|j: int| k <= j < s.entries.len() && refresh_entry(#[trigger] s.entries[j], chain(s.entries[j])) == Some(pruned[k]);
    assert(keyed(s.entries[j], tx.sender, tx.seq));
    lemma_slot_unique(s.entries, i);
    lemma_slot_unique(s.entries, j);
    assert(pruned[k].tx == s.entries[i].tx);
    if tx.fee > s.entries[i].tx.fee {
        lemma_remove_holds(pruned, k);
        let admitted = s.admitted(tx, details, origin);
        assert(admitted.drop_last() == pruned.remove(k));
    }
}

/// Eviction spares the current entries. Where a transaction that is not
/// turned away finds its place free and the pool full, the entry to evict is
/// a future one as long as the pool has any, and no future entry has a lower
/// fee; only where the pool has no future entry is it the current entry of
/// the lowest fee. The import succeeds if and only if the new fee is strictly
/// greater than that entry's: then that entry alone leaves. Otherwise the pool
/// stays as it was and the import reports `PoolFull`.
pub proof fn lemma_eviction_spares_current(s: PoolState, tx: Transaction, details: AccountDetails, origin: Origin)
    requires
        s.valid(),
        s.turned_away(tx, details) is None,
        !holds(s.pruned(tx, details), tx.sender, tx.seq),
        s.pruned(tx, details).len() == s.limit,
        s.limit > 0,
    ensures
        0 <= victim(s.pruned(tx, details)) < s.pruned(tx, details).len(),
        has_future(s.pruned(tx, details)) ==> !is_current(
            s.pruned(tx, details),
            s.pruned(tx, details)[victim(s.pruned(tx, details))],
        ),
        forall|j: int|
            0 <= j < s.pruned(tx, details).len() && #[trigger] expendable(
                s.pruned(tx, details),
                s.pruned(tx, details)[j],
            ) ==> s.pruned(tx, details)[j].tx.fee >= s.pruned(tx, details)[victim(s.pruned(tx, details))].tx.fee,
        s.import_result(tx, details, origin) is Ok <==> tx.fee > s.pruned(tx, details)[victim(
            s.pruned(tx, details),
        )].tx.fee,
        s.import_result(tx, details, origin) is Ok ==> s.after_import(tx, details, origin).entries == s.pruned(
            tx,
            details,
        ).remove(victim(s.pruned(tx, details))).push(s.arriving(tx, details, origin)),
        s.import_result(tx, details, origin) is Err ==> s.import_result(tx, details, origin) == Err::<TransactionImportResult, Error>(
            Error::PoolFull,
        ) && s.after_import(tx, details, origin) == s,
{
    let pruned = s.pruned(tx, details);
    lemma_resynced_well_formed(s.entries, one_account(tx.sender, details), s.clock);
    lemma_victim_exists(pruned);
}

/// Every entry carries the details that `accounts` has for its sender.
pub open spec fn in_line(es: Seq<PoolEntry>, accounts: Map<Address, AccountDetails>) -> bool {
    forall|i: int|
        0 <= i < es.len() ==> accounts.contains_key((#[trigger] es[i]).tx.sender) && accounts[es[i].tx.sender]
            == es[i].account
}

/// A well-formed pool without its latest entry is well formed.
proof fn lemma_drop_last_well_formed(es: Seq<PoolEntry>)
    requires
        well_formed(es),
        es.len() > 0,
    ensures
        well_formed(es.drop_last()),
{
    reveal(well_formed);
    let rest = es.drop_last();
    assert forall|i: int| 0 <= i < rest.len() implies #[trigger] rest[i] == es[i] by {}
}

/// Refreshing a pool with one more entry refreshes the pool and then that entry.
proof fn lemma_resynced_push(es: Seq<PoolEntry>, e: PoolEntry, chain: spec_fn(PoolEntry) -> Option<AccountDetails>)
    ensures
        resynced(es.push(e), chain) == match refresh_entry(e, chain(e)) {
            Some(x) => resynced(es, chain).push(x),
            None => resynced(es, chain),
        },
{
    assert(es.push(e).drop_last() == es);
    assert(es.push(e).last() == e);
}

/// An entry that a refresh drops can as well be removed before the refresh.
proof fn lemma_resynced_skips_dropped(es: Seq<PoolEntry>, i: int, chain: spec_fn(PoolEntry) -> Option<AccountDetails>)
    requires
        0 <= i < es.len(),
        refresh_entry(es[i], chain(es[i])) is None,
    ensures
        resynced(es.remove(i), chain) == resynced(es, chain),
    decreases es.len(),
{
    if i == es.len() - 1 {
        assert(es.remove(i) == es.drop_last());
    } else {
        let rest = es.drop_last();
        lemma_resynced_skips_dropped(rest, i, chain);
        assert(es.remove(i).drop_last() == rest.remove(i));
        assert(es.remove(i).last() == es.last());
        assert(rest[i] == es[i]);
    }
}

/// Resolving a sender to the details that its entries carry changes nothing.
proof fn lemma_refresh_same_is_identity(es: Seq<PoolEntry>, sender: Address, details: AccountDetails)
    requires
        well_formed(es),
        forall|k: int| 0 <= k < es.len() && (#[trigger] es[k]).tx.sender == sender ==> es[k].account == details,
    ensures
        resynced(es, one_account(sender, details)) == es,
    decreases es.len(),
{
    reveal(well_formed);
    if es.len() > 0 {
        let rest = es.drop_last();
        let e = es.last();
        lemma_drop_last_well_formed(es);
        assert forall|k: int| 0 <= k < rest.len() && (#[trigger] rest[k]).tx.sender == sender implies rest[k].account
            == details by {
            assert(rest[k] == es[k]);
        }
        lemma_refresh_same_is_identity(rest, sender, details);
        assert(e == es[es.len() - 1]);
        assert(refresh_entry(e, one_account(sender, details)(e)) == Some(e));
        assert(rest.push(e) == es);
    } else {
        assert(es == Seq::<PoolEntry>::empty());
    }
}

/// Refreshing with accounts that drop nothing, and then with the accounts that
/// the entries carried, gives the entries back.
proof fn lemma_refresh_there_and_back(
    es: Seq<PoolEntry>,
    before: Map<Address, AccountDetails>,
    after: Map<Address, AccountDetails>,
)
    requires
        well_formed(es),
        in_line(es, before),
        forall|i: int|
            0 <= i < es.len() ==> after.contains_key((#[trigger] es[i]).tx.sender) && after[es[i].tx.sender].seq
                <= es[i].tx.seq,
    ensures
        resynced(resynced(es, snapshot_chain(after)), snapshot_chain(before)) == es,
        in_line(resynced(es, snapshot_chain(after)), after),
    decreases es.len(),
{
    reveal(well_formed);
    let there = snapshot_chain(after);
    let back = snapshot_chain(before);
    if es.len() > 0 {
        let rest = es.drop_last();
        let e = es.last();
        lemma_drop_last_well_formed(es);
        assert forall|i: int| 0 <= i < rest.len() implies #[trigger] rest[i] == es[i] by {}
        lemma_refresh_there_and_back(rest, before, after);
        assert(e == es[es.len() - 1]);
        let moved = PoolEntry { account: after[e.tx.sender], ..e };
        assert(refresh_entry(e, there(e)) == Some(moved));
        assert(resynced(es, there) == resynced(rest, there).push(moved));
        lemma_resynced_push(resynced(rest, there), moved, back);
        assert(refresh_entry(moved, back(moved)) == Some(e));
        assert(rest.push(e) == es);
        let out = resynced(es, there);
        assert forall|i: int| 0 <= i < out.len() implies after.contains_key((#[trigger] out[i]).tx.sender)
            && after[out[i].tx.sender] == out[i].account by {
            if i < out.len() - 1 {
                assert(out[i] == resynced(rest, there)[i]);
            }
        }
    } else {
        assert(resynced(es, there) == Seq::<PoolEntry>::empty());
    }
}

/// Where the pool has room, the import of one returning transaction keeps the
/// pool valid and in line with the accounts, and adds at most an entry that a
/// refresh with the accounts before the retraction drops.
proof fn lemma_return_keeps_line(
    t: PoolState,
    tx: Transaction,
    before: Map<Address, AccountDetails>,
    after: Map<Address, AccountDetails>,
)
    requires
        t.valid(),
        in_line(t.entries, after),
        t.entries.len() < t.limit,
        t.clock < u64::MAX,
        after.contains_key(tx.sender),
        before.contains_key(tx.sender) ==> tx.seq < before[tx.sender].seq,
    ensures
        t.after_import(tx, after[tx.sender], Origin::External).valid(),
        in_line(t.after_import(tx, after[tx.sender], Origin::External).entries, after),
        resynced(t.after_import(tx, after[tx.sender], Origin::External).entries, snapshot_chain(before)) == resynced(
            t.entries,
            snapshot_chain(before),
        ),
        t.after_import(tx, after[tx.sender], Origin::External).entries.len() <= t.entries.len() + 1,
        t.after_import(tx, after[tx.sender], Origin::External).clock <= t.clock + 1,
        t.after_import(tx, after[tx.sender], Origin::External) == (PoolState {
            entries: t.after_import(tx, after[tx.sender], Origin::External).entries,
            clock: t.after_import(tx, after[tx.sender], Origin::External).clock,
            ..t
        }),
{
    let details = after[tx.sender];
    let back = snapshot_chain(before);
    lemma_import_keeps_valid(t, tx, details, Origin::External);
    if t.rejection(tx, details) is None {
        let e = t.arriving(tx, details, Origin::External);
        lemma_refresh_same_is_identity(t.entries, tx.sender, details);
        let pruned = t.pruned(tx, details);
        assert(pruned == t.entries);
        assert(refresh_entry(e, back(e)) is None);
        if holds(pruned, tx.sender, tx.seq) {
            let k = slot(pruned, tx.sender, tx.seq);
            assert(refresh_entry(pruned[k], back(pruned[k])) is None);
            lemma_resynced_skips_dropped(pruned, k, back);
            lemma_resynced_push(pruned.remove(k), e, back);
            let out = pruned.remove(k).push(e);
            assert forall|i: int| 0 <= i < out.len() implies after.contains_key((#[trigger] out[i]).tx.sender)
                && after[out[i].tx.sender] == out[i].account by {
                if i < out.len() - 1 {
                    assert(out[i] == pruned[if i < k { i } else { i + 1 }]);
                }
            }
        } else {
            lemma_resynced_push(pruned, e, back);
            let out = pruned.push(e);
            assert forall|i: int| 0 <= i < out.len() implies after.contains_key((#[trigger] out[i]).tx.sender)
                && after[out[i].tx.sender] == out[i].account by {
                if i < out.len() - 1 {
                    assert(out[i] == pruned[i]);
                }
            }
        }
    }
}

/// What `lemma_return_keeps_line` says of one returning transaction holds of
/// several in turn.
proof fn lemma_returns_keep_line(
    t: PoolState,
    txs: Seq<Transaction>,
    before: Map<Address, AccountDetails>,
    after: Map<Address, AccountDetails>,
)
    requires
        t.valid(),
        in_line(t.entries, after),
        t.entries.len() + txs.len() <= t.limit,
        t.clock + txs.len() <= u64::MAX,
        forall|k: int|
            0 <= k < txs.len() && before.contains_key((#[trigger] txs[k]).sender) ==> txs[k].seq
                < before[txs[k].sender].seq,
    ensures
        t.after_returns(txs, after).valid(),
        in_line(t.after_returns(txs, after).entries, after),
        resynced(t.after_returns(txs, after).entries, snapshot_chain(before)) == resynced(
            t.entries,
            snapshot_chain(before),
        ),
        t.after_returns(txs, after).entries.len() <= t.entries.len() + txs.len(),
        t.after_returns(txs, after).clock <= t.clock + txs.len(),
        t.after_returns(txs, after) == (PoolState {
            entries: t.after_returns(txs, after).entries,
            clock: t.after_returns(txs, after).clock,
            ..t
        }),
    decreases txs.len(),
{
    if txs.len() > 0 {
        let rest = txs.drop_last();
        let tx = txs.last();
        assert forall|k: int| 0 <= k < rest.len() && before.contains_key((#[trigger] rest[k]).sender) implies rest[k].seq
            < before[rest[k].sender].seq by {
            assert(rest[k] == txs[k]);
        }
        lemma_returns_keep_line(t, rest, before, after);
        let mid = t.after_returns(rest, after);
        assert(tx == txs[txs.len() - 1]);
        if after.contains_key(tx.sender) {
            lemma_return_keeps_line(mid, tx, before, after);
        }
    }
}

/// A retraction and its undoing leave the pool as it was. Take a pool whose
/// entries carry the details of the chain as it stands, and a block whose
/// transactions that chain has gone past. Let the chain lose the block: the
/// pool is reconciled with the block's transactions as retracted and the
/// accounts as they then are, which drop none of its entries. Let the chain
/// gain the block again: the pool is reconciled with the accounts as they
/// were. Provided that the pool had room for the block's transactions, its
/// entries, limit, minimum fee and address sets are then what they were at
/// the start: each entry stands in the partition in which it stood, and
/// carries the account details that it carried.
pub proof fn lemma_retraction_round_trip(
    s: PoolState,
    block: Seq<Transaction>,
    before: Map<Address, AccountDetails>,
    after: Map<Address, AccountDetails>,
)
    requires
        s.valid(),
        in_line(s.entries, before),
        forall|i: int|
            0 <= i < s.entries.len() ==> after.contains_key((#[trigger] s.entries[i]).tx.sender)
                && after[s.entries[i].tx.sender].seq <= s.entries[i].tx.seq,
        forall|k: int|
            0 <= k < block.len() && before.contains_key((#[trigger] block[k]).sender) ==> block[k].seq
                < before[block[k].sender].seq,
        s.entries.len() + block.len() <= s.limit,
        s.clock + block.len() <= u64::MAX,
    ensures
        s.reconciled(block, after).valid(),
        s.reconciled(block, after).reconciled(Seq::empty(), before).valid(),
        s.reconciled(block, after).reconciled(Seq::empty(), before) == (PoolState {
            clock: s.reconciled(block, after).clock,
            ..s
        }),
        forall|e: PoolEntry| #[trigger]
            is_current(s.reconciled(block, after).reconciled(Seq::empty(), before).entries, e) == is_current(
                s.entries,
                e,
            ),
        in_line(s.reconciled(block, after).reconciled(Seq::empty(), before).entries, before),
{
    let there = snapshot_chain(after);
    let back = snapshot_chain(before);
    let t = PoolState { entries: resynced(s.entries, there), ..s };
    assert(coherent(there));
    assert(coherent(back));
    lemma_resynced_well_formed(s.entries, there, s.clock);
    lemma_resynced_origin(s.entries, there);
    lemma_refresh_there_and_back(s.entries, before, after);
    lemma_returns_keep_line(t, block, before, after);
    let r = t.after_returns(block, after);
    assert(r == s.reconciled(block, after));
    lemma_resynced_well_formed(r.entries, back, r.clock);
    lemma_resynced_origin(r.entries, back);
    let u = PoolState { entries: resynced(r.entries, back), ..r };
    assert(u.after_returns(Seq::<Transaction>::empty(), before) == u);
    assert(r.reconciled(Seq::empty(), before) == u);
}

/// The pool has settled `tx`: it turns `tx` away, or it holds an entry in the
/// place of `tx` whose fee `tx` does not exceed.
pub open spec fn settled(s: PoolState, tx: Transaction, details: AccountDetails) -> bool {
    s.turned_away(tx, details) is Some || (holds(s.entries, tx.sender, tx.seq) && s.entries[slot(
        s.entries,
        tx.sender,
        tx.seq,
    )].tx.fee >= tx.fee)
}

/// A pool refreshed with `accounts` is in line with `accounts`.
proof fn lemma_resynced_in_line(es: Seq<PoolEntry>, accounts: Map<Address, AccountDetails>)
    ensures
        in_line(resynced(es, snapshot_chain(accounts)), accounts),
{
    let chain = snapshot_chain(accounts);
    let out = resynced(es, chain);
    lemma_resynced_origin(es, chain);
    assert forall|k: int| 0 <= k < out.len() implies accounts.contains_key((#[trigger] out[k]).tx.sender)
        && accounts[out[k].tx.sender] == out[k].account by {
        let i = choose|i: int| k <= i < es.len() && refresh_entry(#[trigger] es[i], chain(es[i])) == Some(out[k]);
    }
}

/// Refreshing a pool that is in line with `accounts` with `accounts` changes
/// nothing.
proof fn lemma_refresh_in_line_is_identity(es: Seq<PoolEntry>, accounts: Map<Address, AccountDetails>)
    requires
        well_formed(es),
        in_line(es, accounts),
    ensures
        resynced(es, snapshot_chain(accounts)) == es,
    decreases es.len(),
{
    reveal(well_formed);
    if es.len() > 0 {
        let rest = es.drop_last();
        let e = es.last();
        lemma_drop_last_well_formed(es);
        assert forall|i: int| 0 <= i < rest.len() implies #[trigger] rest[i] == es[i] by {}
        lemma_refresh_in_line_is_identity(rest, accounts);
        assert(e == es[es.len() - 1]);
        assert(refresh_entry(e, snapshot_chain(accounts)(e)) == Some(e));
        assert(rest.push(e) == es);
    } else {
        assert(es == Seq::<PoolEntry>::empty());
    }
}

/// In a pool that is in line with `accounts`, an arriving transaction prunes
/// nothing.
proof fn lemma_in_line_prunes_nothing(t: PoolState, tx: Transaction, accounts: Map<Address, AccountDetails>)
    requires
        t.valid(),
        in_line(t.entries, accounts),
        accounts.contains_key(tx.sender),
    ensures
        t.pruned(tx, accounts[tx.sender]) == t.entries,
{
    lemma_refresh_same_is_identity(t.entries, tx.sender, accounts[tx.sender]);
}

/// A transaction that the pool has settled is refused.
proof fn lemma_settled_is_refused(t: PoolState, tx: Transaction, accounts: Map<Address, AccountDetails>)
    requires
        t.valid(),
        in_line(t.entries, accounts),
        accounts.contains_key(tx.sender),
        settled(t, tx, accounts[tx.sender]),
    ensures
        t.after_import(tx, accounts[tx.sender], Origin::External) == t,
{
    lemma_in_line_prunes_nothing(t, tx, accounts);
}

/// Where the pool has room, a transaction is settled once it has been
/// imported, admitted or not.
proof fn lemma_import_settles(t: PoolState, tx: Transaction, accounts: Map<Address, AccountDetails>)
    requires
        t.valid(),
        in_line(t.entries, accounts),
        t.entries.len() < t.limit,
        t.clock < u64::MAX,
        accounts.contains_key(tx.sender),
    ensures
        settled(t.after_import(tx, accounts[tx.sender], Origin::External), tx, accounts[tx.sender]),
{
    let details = accounts[tx.sender];
    let after = t.after_import(tx, details, Origin::External);
    lemma_in_line_prunes_nothing(t, tx, accounts);
    lemma_import_keeps_valid(t, tx, details, Origin::External);
    if t.rejection(tx, details) is None {
        let last = after.entries.len() - 1;
        assert(after.entries[last] == t.arriving(tx, details, Origin::External));
        assert(keyed(after.entries[last], tx.sender, tx.seq));
        lemma_slot_unique(after.entries, last);
    }
}

/// Where the pool has room, a settled transaction stays settled when another
/// is imported.
proof fn lemma_import_keeps_settled(
    t: PoolState,
    other: Transaction,
    accounts: Map<Address, AccountDetails>,
    tx: Transaction,
    details: AccountDetails,
)
    requires
        t.valid(),
        in_line(t.entries, accounts),
        t.entries.len() < t.limit,
        t.clock < u64::MAX,
        accounts.contains_key(other.sender),
        settled(t, tx, details),
    ensures
        settled(t.after_import(other, accounts[other.sender], Origin::External), tx, details),
{
    let d = accounts[other.sender];
    let after = t.after_import(other, d, Origin::External);
    lemma_in_line_prunes_nothing(t, other, accounts);
    lemma_import_keeps_valid(t, other, d, Origin::External);
    if t.rejection(other, d) is None && t.turned_away(tx, details) is None {
        let es = t.entries;
        let i = slot(es, tx.sender, tx.seq);
        assert(keyed(es[i], tx.sender, tx.seq));
        let last = after.entries.len() - 1;
        if keyed(after.entries[last], tx.sender, tx.seq) {
            lemma_slot_unique(after.entries, last);
            assert(holds(es, other.sender, other.seq));
            lemma_slot_unique(es, i);
        } else if holds(es, other.sender, other.seq) {
            let r = slot(es, other.sender, other.seq);
            assert(keyed(es[r], other.sender, other.seq));
            let at = if i < r { i } else { i - 1 };
            assert(after.entries[at] == es[i]);
            lemma_slot_unique(after.entries, at);
        } else {
            assert(after.entries[i] == es[i]);
            lemma_slot_unique(after.entries, i);
        }
    }
}

/// Where the pool has room for all of them, returning transactions are all
/// settled once they have been imported in turn.
proof fn lemma_returns_settle(t: PoolState, txs: Seq<Transaction>, accounts: Map<Address, AccountDetails>)
    requires
        t.valid(),
        in_line(t.entries, accounts),
        t.entries.len() + txs.len() <= t.limit,
        t.clock + txs.len() <= u64::MAX,
    ensures
        t.after_returns(txs, accounts).valid(),
        in_line(t.after_returns(txs, accounts).entries, accounts),
        forall|k: int|
            0 <= k < txs.len() && accounts.contains_key((#[trigger] txs[k]).sender) ==> settled(
                t.after_returns(txs, accounts),
                txs[k],
                accounts[txs[k].sender],
            ),
    decreases txs.len(),
{
    if txs.len() > 0 {
        let rest = txs.drop_last();
        let tx = txs.last();
        let nothing = Map::<Address, AccountDetails>::empty();
        lemma_returns_settle(t, rest, accounts);
        lemma_returns_keep_line(t, rest, nothing, accounts);
        let mid = t.after_returns(rest, accounts);
        let out = t.after_returns(txs, accounts);
        assert(tx == txs[txs.len() - 1]);
        if accounts.contains_key(tx.sender) {
            lemma_return_keeps_line(mid, tx, nothing, accounts);
            lemma_import_settles(mid, tx, accounts);
        }
        assert forall|k: int| 0 <= k < txs.len() && accounts.contains_key((#[trigger] txs[k]).sender) implies settled(
            out,
            txs[k],
            accounts[txs[k].sender],
        ) by {
            if k < rest.len() {
                assert(rest[k] == txs[k]);
                if accounts.contains_key(tx.sender) {
                    lemma_import_keeps_settled(mid, tx, accounts, txs[k], accounts[txs[k].sender]);
                }
            }
        }
    }
}

/// Importing transactions that are all settled changes nothing.
proof fn lemma_settled_returns_change_nothing(
    t: PoolState,
    txs: Seq<Transaction>,
    accounts: Map<Address, AccountDetails>,
)
    requires
        t.valid(),
        in_line(t.entries, accounts),
        forall|k: int|
            0 <= k < txs.len() && accounts.contains_key((#[trigger] txs[k]).sender) ==> settled(
                t,
                txs[k],
                accounts[txs[k].sender],
            ),
    ensures
        t.after_returns(txs, accounts) == t,
    decreases txs.len(),
{
    if txs.len() > 0 {
        let rest = txs.drop_last();
        let tx = txs.last();
        assert forall|k: int| 0 <= k < rest.len() && accounts.contains_key((#[trigger] rest[k]).sender) implies settled(
            t,
            rest[k],
            accounts[rest[k].sender],
        ) by {
            assert(rest[k] == txs[k]);
        }
        lemma_settled_returns_change_nothing(t, rest, accounts);
        assert(tx == txs[txs.len() - 1]);
        if accounts.contains_key(tx.sender) {
            lemma_settled_is_refused(t, tx, accounts);
        }
    }
}

/// Reconciling is idempotent. Provided that the pool has room for the
/// retracted transactions, so that none is evicted, reconciling a second
/// time with the same retracted transactions and the same accounts leaves
/// the pool exactly as the first time left it.
pub proof fn lemma_reconcile_is_idempotent(
    s: PoolState,
    retracted: Seq<Transaction>,
    accounts: Map<Address, AccountDetails>,
)
    requires
        s.valid(),
        s.entries.len() + retracted.len() <= s.limit,
        s.clock + retracted.len() <= u64::MAX,
    ensures
        s.reconciled(retracted, accounts).valid(),
        s.reconciled(retracted, accounts).reconciled(retracted, accounts) == s.reconciled(retracted, accounts),
{
    let chain = snapshot_chain(accounts);
    let t = PoolState { entries: resynced(s.entries, chain), ..s };
    assert(coherent(chain));
    lemma_resynced_well_formed(s.entries, chain, s.clock);
    lemma_resynced_origin(s.entries, chain);
    lemma_resynced_in_line(s.entries, accounts);
    lemma_returns_settle(t, retracted, accounts);
    let once = t.after_returns(retracted, accounts);
    lemma_refresh_in_line_is_identity(once.entries, accounts);
    assert((PoolState { entries: resynced(once.entries, chain), ..once }) == once);
    lemma_settled_returns_change_nothing(once, retracted, accounts);
}

/// An import with a gap is reported as future. Where an admitted
/// transaction finds a sequence number between its sender's on-chain one and
/// its own that the pool does not hold, the import reports `Future`.
pub proof fn lemma_import_behind_a_gap_is_future(
    s: PoolState,
    tx: Transaction,
    details: AccountDetails,
    origin: Origin,
    gap: u64,
)
    requires
        s.valid(),
        s.rejection(tx, details) is None,
        details.seq <= gap < tx.seq,
        !holds(s.pruned(tx, details), tx.sender, gap),
    ensures
        s.import_result(tx, details, origin) == Ok::<TransactionImportResult, Error>(TransactionImportResult::Future),
{
    let pruned = s.pruned(tx, details);
    let e = s.arriving(tx, details, origin);
    lemma_resynced_well_formed(s.entries, one_account(tx.sender, details), s.clock);
    let room = vacated(pruned, s.limit, tx);
    if holds(pruned, tx.sender, tx.seq) {
        let k = slot(pruned, tx.sender, tx.seq);
        assert(keyed(pruned[k], tx.sender, tx.seq));
        lemma_remove_holds(pruned, k);
    } else if pruned.len() >= s.limit {
        lemma_victim_exists(pruned);
        lemma_remove_holds(pruned, victim(pruned));
    }
    assert(!holds(room, tx.sender, gap));
    lemma_push_holds(room, e);
    assert(!holds(room.push(e), tx.sender, gap));
}

/// Eviction leaves the current entries current. Where a transaction evicts
/// an entry from a full pool that has future entries, every entry that was
/// current, whatever its fee, is still in the pool and still current.
pub proof fn lemma_eviction_keeps_current_entries(
    s: PoolState,
    tx: Transaction,
    details: AccountDetails,
    origin: Origin,
    j: int,
)
    requires
        s.valid(),
        s.rejection(tx, details) is None,
        !holds(s.pruned(tx, details), tx.sender, tx.seq),
        s.pruned(tx, details).len() == s.limit,
        has_future(s.pruned(tx, details)),
        0 <= j < s.pruned(tx, details).len(),
        is_current(s.pruned(tx, details), s.pruned(tx, details)[j]),
    ensures
        j != victim(s.pruned(tx, details)),
        s.after_import(tx, details, origin).entries.contains(s.pruned(tx, details)[j]),
        is_current(s.after_import(tx, details, origin).entries, s.pruned(tx, details)[j]),
{
    reveal(well_formed);
    let pruned = s.pruned(tx, details);
    let e = s.arriving(tx, details, origin);
    let c = pruned[j];
    lemma_resynced_well_formed(s.entries, one_account(tx.sender, details), s.clock);
    lemma_victim_exists(pruned);
    let v = victim(pruned);
    let rest = pruned.remove(v);
    let out = rest.push(e);
    assert(out == s.after_import(tx, details, origin).entries);
    assert(out[if j < v { j } else { j - 1 }] == c);
    lemma_remove_holds(pruned, v);
    lemma_push_holds(rest, e);
    assert forall|k: u64| c.account.seq <= k <= c.tx.seq implies #[trigger] holds(out, c.tx.sender, k) by {
        assert(holds(pruned, c.tx.sender, k));
        if keyed(pruned[v], c.tx.sender, k) {
            assert(pruned[v].account == c.account);
            assert forall|m: u64| pruned[v].account.seq <= m <= pruned[v].tx.seq implies #[trigger] holds(
                pruned,
                pruned[v].tx.sender,
                m,
            ) by {
                assert(holds(pruned, c.tx.sender, m));
            }
        }
        assert(holds(rest, c.tx.sender, k));
    }
}

/// Quarantine outlasts immunity. A sender that is in the malicious set stays
/// refused as `SenderBanned` after it has been registered as immune, and the
/// pool stays as it was; only a release lifts the ban. Once released, the
/// immune sender is not imprisoned again, whoever else is.
pub proof fn lemma_immunity_does_not_lift_a_ban(
    s: PoolState,
    users: Set<Address>,
    freed: Set<Address>,
    prisoners: Set<Address>,
    tx: Transaction,
    details: AccountDetails,
    origin: Origin,
)
    requires
        s.malicious.contains(tx.sender),
        users.contains(tx.sender),
        freed.contains(tx.sender),
    ensures
        s.immunised(users).import_result(tx, details, origin) == Err::<TransactionImportResult, Error>(
            Error::SenderBanned,
        ),
        s.immunised(users).after_import(tx, details, origin) == s.immunised(users),
        !s.immunised(users).released(freed).malicious.contains(tx.sender),
        !s.immunised(users).released(freed).imprisoned(prisoners).malicious.contains(tx.sender),
{
}

/// The entries of one sender are listed by their sequence numbers.
pub proof fn lemma_listing_follows_sequence_numbers(
    es: Seq<PoolEntry>,
    current: bool,
    list: Seq<PoolEntry>,
    j: int,
    k: int,
)
    requires
        well_formed(es),
        is_listing(es, current, list),
        0 <= j < k < list.len(),
        list[j].tx.sender == list[k].tx.sender,
    ensures
        list[j].tx.seq < list[k].tx.seq,
{
    reveal(well_formed);
    assert(drawn(es, es.len() as int, current, list[j]));
    assert(drawn(es, es.len() as int, current, list[k]));
    let a = choose|a: int| 0 <= a < es.len() && #[trigger] es[a] == list[j] && is_current(es, list[j]) == current;
    let b = choose|b: int| 0 <= b < es.len() && #[trigger] es[b] == list[k] && is_current(es, list[k]) == current;
    assert(es[a].account == es[b].account);
    assert(listed_before(list[j], list[k]));
    if list[j].tx.seq == list[k].tx.seq {
        if a < b {
            assert(!keyed(es[a], es[b].tx.sender, es[b].tx.seq));
        } else if b < a {
            assert(!keyed(es[b], es[a].tx.sender, es[a].tx.seq));
        }
    }
}

/// No gap reaches block production. In the listing of the current entries,
/// before each entry stand the entries of its sender at every sequence
/// number from the sender's on-chain one up to its own: whatever page of the
/// listing is taken from its start, it holds no transaction whose
/// predecessor it lacks.
pub proof fn lemma_ready_prefix_has_no_gap(es: Seq<PoolEntry>, list: Seq<PoolEntry>, k: int, seq: u64)
    requires
        well_formed(es),
        is_listing(es, true, list),
        0 <= k < list.len(),
        list[k].account.seq <= seq < list[k].tx.seq,
    ensures
        exists|j: int| 0 <= j < k && #[trigger] keyed(list[j], list[k].tx.sender, seq),
{
    reveal(well_formed);
    let e = list[k];
    assert(drawn(es, es.len() as int, true, e));
    let i = choose|i: int| 0 <= i < es.len() && #[trigger] es[i] == e && is_current(es, e) == true;
    assert(holds(es, e.tx.sender, seq));
    let m = choose|m: int| 0 <= m < es.len() && #[trigger] keyed(es[m], e.tx.sender, seq);
    assert(es[m].account == es[i].account);
    assert forall|n: u64| es[m].account.seq <= n <= es[m].tx.seq implies #[trigger] holds(es, es[m].tx.sender, n) by {
        assert(holds(es, e.tx.sender, n));
    }
    assert(list.contains(es[m]));
    let j = choose|j: int| 0 <= j < list.len() && list[j] == es[m];
    if j > k {
        assert(listed_before(list[k], list[j]));
    }
    assert(keyed(list[j], e.tx.sender, seq));
}

} // verus!
