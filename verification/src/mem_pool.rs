//! The transaction pool: every pending transaction, partitioned per sender
//! into current and future, bounded by a limit.

use vstd::prelude::*;
use std::ops::Range;
use crate::account::AccountSnapshot;
use crate::error::Error;
use crate::miner::TransactionImportResult;
use crate::pool_laws::lemma_import_keeps_valid;
use crate::pool_model::{
    coherent, evicted_to, holds, is_listing, lemma_remove_well_formed, lemma_resynced_origin,
    lemma_resynced_well_formed, lemma_victim_unique, listing, one_account, page, page_end, page_start,
    resynced, snapshot_chain, stamped_below, transactions_of, well_formed, without_hashes, Origin, PoolEntry,
    PoolState,
};
use crate::pool_ops::{
    add_addresses, check_current, copy_of, drop_hashes, find, find_victim, list_partition, lists,
    make_room, page_of, remove_addresses, resync_all, resync_one,
};
use crate::primitives::{AccountDetails, Address, Transaction, TxHash};

verus! {

/// The transaction pool.
pub struct MemPool {
    entries: Vec<PoolEntry>,
    clock: u64,
    limit: usize,
    min_fee: u64,
    malicious: Vec<Address>,
    immune: Vec<Address>,
}

impl View for MemPool {
    type V = PoolState;

    closed spec fn view(&self) -> PoolState {
        PoolState {
            entries: self.entries@,
            clock: self.clock,
            limit: self.limit,
            min_fee: self.min_fee,
            malicious: self.malicious@.to_set(),
            immune: self.immune@.to_set(),
        }
    }
}

impl MemPool {
    /// Neither address list names an address twice.
    pub closed spec fn lists_distinct(&self) -> bool {
        self.malicious@.no_duplicates() && self.immune@.no_duplicates()
    }

    /// The invariant that every operation keeps.
    pub open spec fn wf(&self) -> bool {
        self@.valid() && self.lists_distinct()
    }

    /// An empty pool that keeps at most `limit` entries and admits no fee
    /// below `min_fee`.
    pub fn new(limit: usize, min_fee: u64) -> (pool: Self)
        ensures
            pool.wf(),
            pool@ == (PoolState {
                entries: Seq::empty(),
                clock: 0,
                limit,
                min_fee,
                malicious: Set::empty(),
                immune: Set::empty(),
            }),
    {
        let pool = MemPool {
            entries: Vec::new(),
            clock: 0,
            limit,
            min_fee,
            malicious: Vec::new(),
            immune: Vec::new(),
        };
        proof {
            reveal(well_formed);
            assert(pool.malicious@.to_set() =~= Set::<Address>::empty());
            assert(pool.immune@.to_set() =~= Set::<Address>::empty());
        }
        pool
    }

    /// Imports `tx`, whose sender the chain resolves to `details`.
    ///
    /// A refused transaction leaves the pool as it was. An admitted one takes
    /// the place of the entry with the same sender and sequence number, or
    /// joins the pool, evicting one entry where the pool is full; the result
    /// names the partition in which it then stands.
    pub fn import(&mut self, tx: Transaction, details: AccountDetails, origin: Origin) -> (result: Result<
        TransactionImportResult,
        Error,
    >)
        requires
            old(self).wf(),
            old(self)@.clock < u64::MAX,
        ensures
            final(self).wf(),
            final(self)@ == old(self)@.after_import(tx, details, origin),
            result == old(self)@.import_result(tx, details, origin),
    {
        if lists(&self.malicious, tx.sender) {
            return Err(Error::SenderBanned);
        }
        if tx.fee < self.min_fee {
            return Err(Error::Underpriced);
        }
        if tx.seq < details.seq {
            return Err(Error::StaleSequence);
        }
        let mut pruned = resync_one(&self.entries, tx.sender, details);
        let entry = PoolEntry { tx, origin, arrival: self.clock, account: details };
        proof {
            lemma_resynced_well_formed(self.entries@, one_account(tx.sender, details), self.clock);
        }
        match make_room(&mut pruned, self.limit, tx) {
            Some(error) => {
                return Err(error);
            },
            None => {},
        }
        proof {
            lemma_import_keeps_valid(self@, tx, details, origin);
        }
        pruned.push(entry);
        let last = pruned.len() - 1;
        let current = check_current(&pruned, last);
        self.entries = pruned;
        self.clock = self.clock + 1;
        if current {
            Ok(TransactionImportResult::Current)
        } else {
            Ok(TransactionImportResult::Future)
        }
    }

    /// The current transactions that the index range `range` asks for. They
    /// are listed by their distance from the sender's on-chain sequence
    /// number, so that each sender's transactions follow their sequence
    /// numbers; then by fee, the higher first; then by arrival, the earlier
    /// first.
    pub fn ready(&self, range: Range<u64>) -> (txs: Vec<Transaction>)
        requires
            self.wf(),
        ensures
            txs@ == transactions_of(page(listing(self@.entries, true), range.start, range.end)),
            is_listing(self@.entries, true, listing(self@.entries, true)),
            listing(self@.entries, true).len() <= usize::MAX,
    {
        let list = list_partition(&self.entries, true);
        page_of(&list, range.start, range.end)
    }

    /// The future transactions that the index range `range` asks for, in the
    /// order in which `ready` lists the current ones.
    pub fn future(&self, range: Range<u64>) -> (txs: Vec<Transaction>)
        requires
            self.wf(),
        ensures
            txs@ == transactions_of(page(listing(self@.entries, false), range.start, range.end)),
            is_listing(self@.entries, false, listing(self@.entries, false)),
            listing(self@.entries, false).len() <= usize::MAX,
    {
        let list = list_partition(&self.entries, false);
        page_of(&list, range.start, range.end)
    }

    /// How many transactions `ready` returns for `range`.
    pub fn count_pending(&self, range: Range<u64>) -> (count: usize)
        requires
            self.wf(),
        ensures
            count == page(listing(self@.entries, true), range.start, range.end).len(),
            is_listing(self@.entries, true, listing(self@.entries, true)),
            listing(self@.entries, true).len() <= usize::MAX,
    {
        let list = list_partition(&self.entries, true);
        page_of(&list, range.start, range.end).len()
    }

    /// How many transactions, current and future together, the index range
    /// `range` covers.
    pub fn count_future_included(&self, range: Range<u64>) -> (count: usize)
        requires
            self.wf(),
        ensures
            count == page_end(self@.entries.len(), range.start, range.end) - page_start(
                self@.entries.len(),
                range.start,
            ),
    {
        let len = self.entries.len();
        let lo: usize = if range.start <= len as u64 { range.start as usize } else { len };
        let hi: usize = if range.end <= lo as u64 { lo } else if range.end <= len as u64 { range.end as usize } else { len };
        hi - lo
    }

    /// Drops the entries whose transaction hash is among `hashes`. The
    /// partition follows: an entry behind a dropped one is future until the
    /// gap is filled again.
    pub fn remove_invalid(&mut self, hashes: &Vec<TxHash>)
        requires
            old(self).wf(),
        ensures
            final(self).wf(),
            final(self)@ == (PoolState {
                entries: resynced(old(self)@.entries, without_hashes(hashes@)),
                ..old(self)@
            }),
    {
        let kept = drop_hashes(&self.entries, hashes);
        proof {
            lemma_resynced_well_formed(self.entries@, without_hashes(hashes@), self.clock);
            lemma_resynced_origin(self.entries@, without_hashes(hashes@));
        }
        self.entries = kept;
    }

    /// Sets the limit to `limit` and evicts entries until no more than that
    /// are left.
    pub fn set_limit(&mut self, limit: usize)
        requires
            old(self).wf(),
        ensures
            final(self).wf(),
            final(self)@ == (PoolState {
                entries: evicted_to(old(self)@.entries, limit),
                limit,
                ..old(self)@
            }),
    {
        self.limit = limit;
        while self.entries.len() > limit
            invariant
                well_formed(self.entries@),
                stamped_below(self.entries@, self.clock),
                self.lists_distinct(),
                self.limit == limit,
                evicted_to(self.entries@, limit) == evicted_to(old(self)@.entries, limit),
                self@ == (PoolState { entries: self.entries@, limit, ..old(self)@ }),
            decreases self.entries.len(),
        {
            let v = find_victim(&self.entries);
            proof {
                lemma_victim_unique(self.entries@, v as int);
                lemma_remove_well_formed(self.entries@, v as int, self.clock);
            }
            self.entries.remove(v);
        }
    }

    /// Brings the pool in line with a changed chain. Every entry is refreshed
    /// with what `accounts` says of its sender: it is dropped where the
    /// account cannot be resolved or has moved past it. Then each transaction
    /// of the retracted blocks is imported again, in the given order, as a
    /// transaction from outside; one whose sender cannot be resolved or that
    /// the pool refuses is passed over.
    pub fn reconcile_on_chain_change(&mut self, retracted: &Vec<Transaction>, accounts: &AccountSnapshot)
        requires
            old(self).wf(),
            old(self)@.clock + retracted@.len() <= u64::MAX,
        ensures
            final(self).wf(),
            final(self)@ == old(self)@.reconciled(retracted@, accounts@),
    {
        let refreshed = resync_all(&self.entries, accounts);
        proof {
            assert(coherent(snapshot_chain(accounts@)));
            lemma_resynced_well_formed(self.entries@, snapshot_chain(accounts@), self.clock);
            lemma_resynced_origin(self.entries@, snapshot_chain(accounts@));
        }
        self.entries = refreshed;
        let ghost start = self@;
        let mut i: usize = 0;
        while i < retracted.len()
            invariant
                i <= retracted.len(),
                self.wf(),
                self@ == start.after_returns(retracted@.take(i as int), accounts@),
                self@.clock <= start.clock + i,
                start.clock + retracted@.len() <= u64::MAX,
            decreases retracted.len() - i,
        {
            let tx = retracted[i];
            proof {
                assert(retracted@.take(i + 1).drop_last() == retracted@.take(i as int));
                assert(retracted@.take(i + 1).last() == tx);
            }
            match accounts.resolve(tx.sender) {
                Some(details) => {
                    let _ = self.import(tx, details, Origin::External);
                },
                None => {},
            }
            i += 1;
        }
        proof {
            assert(retracted@.take(retracted@.len() as int) == retracted@);
        }
    }

    /// The senders whose transactions the pool refuses, each once.
    pub fn malicious_users(&self) -> (users: Vec<Address>)
        requires
            self.wf(),
        ensures
            users@.no_duplicates(),
            users@.to_set() == self@.malicious,
    {
        copy_of(&self.malicious)
    }

    /// The senders that cannot be imprisoned, each once.
    pub fn immune_users(&self) -> (users: Vec<Address>)
        requires
            self.wf(),
        ensures
            users@.no_duplicates(),
            users@.to_set() == self@.immune,
    {
        copy_of(&self.immune)
    }

    /// Puts each of `prisoners` that is not immune into the malicious set.
    pub fn imprison(&mut self, prisoners: &Vec<Address>)
        requires
            old(self).wf(),
        ensures
            final(self).wf(),
            final(self)@ == old(self)@.imprisoned(prisoners@.to_set()),
    {
        add_addresses(&mut self.malicious, prisoners, &self.immune);
    }

    /// Takes each of `prisoners` out of the malicious set.
    pub fn release(&mut self, prisoners: &Vec<Address>)
        requires
            old(self).wf(),
        ensures
            final(self).wf(),
            final(self)@ == old(self)@.released(prisoners@.to_set()),
    {
        remove_addresses(&mut self.malicious, prisoners);
    }

    /// Puts each of `users` into the immune set. The malicious set stays as
    /// it is: an imprisoned sender stays refused until it is released.
    pub fn register_immune(&mut self, users: &Vec<Address>)
        requires
            old(self).wf(),
        ensures
            final(self).wf(),
            final(self)@ == old(self)@.immunised(users@.to_set()),
    {
        let nobody: Vec<Address> = Vec::new();
        add_addresses(&mut self.immune, users, &nobody);
        proof {
            assert(nobody@.to_set() =~= Set::<Address>::empty());
            assert(users@.to_set().difference(nobody@.to_set()) =~= users@.to_set());
        }
    }

    /// The greatest number of entries that the pool keeps.
    pub fn limit(&self) -> (limit: usize)
        ensures
            limit == self@.limit,
    {
        self.limit
    }

    /// The lowest fee that the pool admits.
    pub fn min_fee(&self) -> (fee: u64)
        ensures
            fee == self@.min_fee,
    {
        self.min_fee
    }

    /// The number of entries, current and future together.
    pub fn len(&self) -> (len: usize)
        ensures
            len == self@.entries.len(),
    {
        self.entries.len()
    }

    /// Tells whether the pool can stamp `arrivals` more entries.
    pub fn can_stamp(&self, arrivals: usize) -> (ok: bool)
        ensures
            ok == (self@.clock + arrivals <= u64::MAX),
    {
        arrivals as u64 <= u64::MAX - self.clock
    }

    /// The entries in arrival order, as a backup saves them.
    pub fn entries(&self) -> (entries: Vec<PoolEntry>)
        ensures
            entries@ == self@.entries,
    {
        copy_of(&self.entries)
    }

    /// The sequence number that the next transaction of `sender` should
    /// carry, given that the chain resolves the sender to `details`: the
    /// first one from `details.seq` on that the pool does not hold for the
    /// sender. `None` where the pool holds them all.
    pub fn next_seq(&self, sender: Address, details: AccountDetails) -> (next: Option<u64>)
        ensures
            match next {
                Some(seq) => {
                    &&& details.seq <= seq
                    &&& !holds(self@.entries, sender, seq)
                    &&& forall|k: u64| details.seq <= k < seq ==> #[trigger] holds(self@.entries, sender, k)
                },
                None => forall|k: u64| details.seq <= k ==> #[trigger] holds(self@.entries, sender, k),
            },
    {
        let mut seq: u64 = details.seq;
        loop
            invariant
                details.seq <= seq,
                forall|k: u64| details.seq <= k < seq ==> #[trigger] holds(self.entries@, sender, k),
            decreases u64::MAX - seq,
        {
            if find(&self.entries, sender, seq).is_none() {
                return Some(seq);
            }
            if seq == u64::MAX {
                return None;
            }
            seq += 1;
        }
    }
}

} // verus!
