//! The miner: the pool, the sealing queue and the sealing state machine under
//! one roof.

use vstd::prelude::*;
use std::ops::Range;
use crate::account::AccountSnapshot;
use crate::error::Error;
use crate::mem_pool::MemPool;
use crate::pool_model::{
    evicted_to, holds, is_listing, listing, page, page_end, page_start, transactions_of, Origin, PoolEntry,
    PoolState,
};
use crate::pool_ops::copy_of;
use crate::primitives::{AccountDetails, Address, BlockHash, Transaction, TxHash};
use crate::sealing_queue::{distinct_hashes, found, pushed, without, ClosedBlock, SealingQueue};

verus! {

/// Mining status: how many transactions wait in each partition of the pool and
/// how many the candidate block under seal embeds.
#[derive(Debug)]
pub struct MinerStatus {
    /// Number of transactions ready to be included in a block.
    pub transactions_in_pending_queue: usize,
    /// Number of transactions not yet ready to be included in a block.
    pub transactions_in_future_queue: usize,
    /// Number of transactions included in the block being sealed.
    pub tranasction_in_pending_block: usize,
}

/// The partition that an imported transaction went to.
#[derive(Debug, Clone, Copy, PartialEq, Eq, Structural)]
pub enum TransactionImportResult {
    /// The transaction can be included in the next block.
    Current,
    /// A sequence number before the transaction's is still missing.
    Future,
}

/// Where the sealing state machine stands.
#[derive(Debug, Clone, Copy, PartialEq, Eq, Structural)]
pub enum SealingStatus {
    /// Sealing is switched off.
    Disabled,
    /// Sealing is switched on and no candidate is offered for work.
    Idle,
    /// Sealing is switched on and the newest candidate is offered for work.
    Authoring,
}

/// What the miner puts into the blocks it authors.
pub struct AuthoringParams {
    pub author: Address,
    pub extra_data: Vec<u8>,
}

/// The sizes that a miner is made with.
#[derive(Debug, Clone, Copy)]
pub struct MinerOptions {
    /// The greatest number of transactions that the pool keeps.
    pub mem_pool_size: usize,
    /// The lowest fee that the pool admits.
    pub mem_pool_min_fee: u64,
    /// The greatest number of candidate blocks that await a seal.
    pub work_queue_size: usize,
}

/// What block assembly needs for a new candidate: the block to build on, the
/// authoring parameters and the pool's current transactions in listing order.
pub struct SealingJob {
    pub parent: BlockHash,
    pub author: Address,
    pub extra_data: Vec<u8>,
    pub transactions: Vec<Transaction>,
}

/// A candidate block with the seal that was submitted for it, ready for
/// import into the chain.
pub struct SealedBlock {
    pub block: ClosedBlock,
    pub seal: Vec<Vec<u8>>,
}

/// The state of the miner as contracts see it.
pub struct MinerState {
    pub pool: PoolState,
    /// The candidates that await a seal, oldest first.
    pub queue: Seq<ClosedBlock>,
    /// The greatest number of candidates that the queue keeps.
    pub capacity: usize,
    pub status: SealingStatus,
    pub author: Address,
    pub extra_data: Seq<u8>,
    /// The block that the queued candidates build on.
    pub parent: Option<BlockHash>,
}

impl MinerState {
    /// The miner's invariant: a valid pool, a queue of distinct pre-seal
    /// hashes within its capacity, a candidate to offer while authoring, and
    /// none at all while sealing is switched off.
    pub open spec fn valid(self) -> bool {
        &&& self.pool.valid()
        &&& distinct_hashes(self.queue)
        &&& self.queue.len() <= self.capacity
        &&& (self.status is Authoring ==> self.queue.len() > 0)
        &&& (self.status is Disabled ==> self.queue.len() == 0)
    }

    /// The state after sealing has been switched on.
    pub open spec fn started(self) -> MinerState {
        if self.status is Disabled {
            MinerState { status: SealingStatus::Idle, ..self }
        } else {
            self
        }
    }

    /// The state after sealing has been switched off: no candidate is left.
    pub open spec fn stopped(self) -> MinerState {
        MinerState { status: SealingStatus::Disabled, queue: Seq::empty(), parent: None, ..self }
    }

    /// The state after a new candidate on `parent` has been asked for: where
    /// the queued candidates build on another block, they are dropped.
    pub open spec fn retargeted(self, parent: BlockHash) -> MinerState {
        if self.status is Disabled || self.parent == Some(parent) {
            self
        } else {
            MinerState { status: SealingStatus::Idle, queue: Seq::empty(), parent: Some(parent), ..self }
        }
    }

    /// The candidate is taken up: sealing is switched on, the candidate builds
    /// on the block that was asked for, and it embeds a transaction or an
    /// empty block is allowed.
    pub open spec fn takes_up(self, block: ClosedBlock, allow_empty_block: bool) -> bool {
        &&& !(self.status is Disabled)
        &&& self.parent == Some(block.parent)
        &&& (block.transactions@.len() > 0 || allow_empty_block)
    }

    /// The state after a candidate has been handed in.
    pub open spec fn after_candidate(self, block: ClosedBlock, allow_empty_block: bool) -> MinerState {
        if self.takes_up(block, allow_empty_block) {
            let queue = pushed(self.queue, self.capacity, block);
            MinerState {
                queue,
                status: if queue.len() > 0 {
                    SealingStatus::Authoring
                } else {
                    SealingStatus::Idle
                },
                ..self
            }
        } else if !(self.status is Disabled) && self.parent == Some(block.parent) {
            MinerState { status: SealingStatus::Idle, ..self }
        } else {
            self
        }
    }

    /// The state after a seal has been submitted for `pow_hash`: the candidate
    /// of that hash has left the queue.
    pub open spec fn after_seal(self, pow_hash: BlockHash) -> MinerState {
        let queue = without(self.queue, pow_hash);
        MinerState {
            queue,
            status: if self.status is Authoring && queue.len() == 0 {
                SealingStatus::Idle
            } else {
                self.status
            },
            ..self
        }
    }

    /// The candidate that a seal submitted for `pow_hash` is attached to, or
    /// `SealNotFound`.
    pub open spec fn sealed(self, pow_hash: BlockHash) -> Result<ClosedBlock, Error> {
        match found(self.queue, pow_hash) {
            Some(block) => Ok(block),
            None => Err(Error::SealNotFound),
        }
    }

    /// The candidate that is offered for work, if any.
    pub open spec fn work(self) -> Option<ClosedBlock> {
        if self.status is Authoring {
            Some(self.queue.last())
        } else {
            None
        }
    }
}

/// What each of `txs` reports when they are imported in turn, as
/// transactions from outside, with the details that `accounts` gives.
pub open spec fn batch_results(s: PoolState, txs: Seq<Transaction>, accounts: Map<Address, AccountDetails>) -> Seq<
    Result<TransactionImportResult, Error>,
>
    decreases txs.len(),
{
    if txs.len() == 0 {
        Seq::empty()
    } else {
        let rest = txs.drop_last();
        batch_results(s, rest, accounts).push(
            s.after_returns(rest, accounts).import_result(txs.last(), accounts[txs.last().sender], Origin::External),
        )
    }
}

/// Exactly once. A seal submitted a second time for the same pre-seal hash
/// finds no candidate, whatever became of the first.
pub proof fn lemma_seal_is_consumed(s: MinerState, pow_hash: BlockHash)
    requires
        s.valid(),
    ensures
        s.after_seal(pow_hash).valid(),
        s.after_seal(pow_hash).sealed(pow_hash) == Err::<ClosedBlock, Error>(Error::SealNotFound),
{
    crate::sealing_queue::lemma_take_is_once(s.queue, pow_hash);
    assert(without(s.queue, pow_hash).len() <= s.queue.len());
}

/// What the chain's answer to a sealed block means for the one who submitted
/// the seal.
pub fn chain_import_result(imported: bool) -> (result: Result<(), Error>)
    ensures
        result == if imported {
            Ok::<(), Error>(())
        } else {
            Err::<(), Error>(Error::ChainImportFailed)
        },
{
    if imported {
        Ok(())
    } else {
        Err(Error::ChainImportFailed)
    }
}

/// The miner's client API. Each operation is stated over the miner's state
/// as `state` gives it, and keeps the invariant `sound`.
pub trait MinerService {
    /// The state of the miner as contracts see it.
    spec fn state(&self) -> MinerState;

    /// The invariant that every operation keeps.
    spec fn sound(&self) -> bool;

    /// The miner's status: the number of current transactions, the number of
    /// future ones, and the number that the candidate offered for work
    /// embeds.
    fn status(&self) -> (status: MinerStatus)
        requires
            self.sound(),
        ensures
            status.transactions_in_pending_queue == listing(self.state().pool.entries, true).len(),
            status.transactions_in_future_queue == listing(self.state().pool.entries, false).len(),
            is_listing(self.state().pool.entries, true, listing(self.state().pool.entries, true)),
            is_listing(self.state().pool.entries, false, listing(self.state().pool.entries, false)),
            status.tranasction_in_pending_block == match self.state().work() {
                Some(block) => block.transactions@.len(),
                None => 0,
            },
    ;

    /// The current authoring parameters.
    fn authoring_params(&self) -> (params: AuthoringParams)
        ensures
            params.author == self.state().author,
            params.extra_data@ == self.state().extra_data,
    ;

    /// Sets the author that blocks are sealed as.
    fn set_author(&mut self, author: Address)
        requires
            old(self).sound(),
        ensures
            final(self).sound(),
            final(self).state() == (MinerState { author, ..old(self).state() }),
    ;

    /// The address that blocks are sealed as.
    fn get_author_address(&self) -> (author: Address)
        ensures
            author == self.state().author,
    ;

    /// Sets the extra data that blocks are sealed with.
    fn set_extra_data(&mut self, extra_data: Vec<u8>)
        requires
            old(self).sound(),
        ensures
            final(self).sound(),
            final(self).state() == (MinerState { extra_data: extra_data@, ..old(self).state() }),
    ;

    /// The greatest number of transactions that the pool keeps.
    fn transactions_limit(&self) -> (limit: usize)
        ensures
            limit == self.state().pool.limit,
    ;

    /// Sets the greatest number of transactions that the pool keeps, current
    /// and future together, and evicts down to it.
    fn set_transactions_limit(&mut self, limit: usize)
        requires
            old(self).sound(),
        ensures
            final(self).sound(),
            final(self).state() == (MinerState {
                pool: PoolState {
                    entries: evicted_to(old(self).state().pool.entries, limit),
                    limit,
                    ..old(self).state().pool
                },
                ..old(self).state()
            }),
    ;

    /// Brings the pool in line with a changed chain, as
    /// `MemPool::reconcile_on_chain_change` does, and tells whether a new
    /// candidate is to be asked for: it is unless sealing is switched off.
    fn chain_new_blocks(&mut self, retracted: &Vec<Transaction>, accounts: &AccountSnapshot) -> (reseal: bool)
        requires
            old(self).sound(),
            old(self).state().pool.clock + retracted@.len() <= u64::MAX,
        ensures
            final(self).sound(),
            final(self).state() == (MinerState {
                pool: old(self).state().pool.reconciled(retracted@, accounts@),
                ..old(self).state()
            }),
            reseal == !(old(self).state().status is Disabled),
    ;

    /// Begins a new candidate on `parent`. With sealing switched off nothing
    /// happens and nothing is returned. Otherwise candidates that build on
    /// another block are dropped, and the job for block assembly is returned:
    /// a snapshot of the pool's current transactions with the authoring
    /// parameters. The assembled block is handed in with `accept_candidate`.
    fn update_sealing(&mut self, parent: BlockHash) -> (job: Option<SealingJob>)
        requires
            old(self).sound(),
        ensures
            final(self).sound(),
            final(self).state() == old(self).state().retargeted(parent),
            match job {
                Some(job) => {
                    &&& !(old(self).state().status is Disabled)
                    &&& job.parent == parent
                    &&& job.author == old(self).state().author
                    &&& job.extra_data@ == old(self).state().extra_data
                    &&& job.transactions@ == transactions_of(listing(old(self).state().pool.entries, true))
                    &&& is_listing(old(self).state().pool.entries, true, listing(old(self).state().pool.entries, true))
                },
                None => old(self).state().status is Disabled,
            },
    ;

    /// Hands in the candidate that block assembly built. It is discarded where
    /// sealing has been switched off meanwhile or the candidate builds on
    /// another block than the one last asked for. A candidate without
    /// transactions leaves the miner idle unless `allow_empty_block` is set.
    /// Otherwise the candidate is queued and offered for work; the result
    /// tells whether workers are to be notified.
    fn accept_candidate(&mut self, block: ClosedBlock, allow_empty_block: bool) -> (notify: bool)
        requires
            old(self).sound(),
        ensures
            final(self).sound(),
            final(self).state() == old(self).state().after_candidate(block, allow_empty_block),
            notify == old(self).state().takes_up(block, allow_empty_block),
    ;

    /// Attaches `seal` to the candidate of pre-seal hash `pow_hash` and takes
    /// that candidate out of the queue, so that a seal for it is accepted
    /// once. The sealed block is returned for import into the chain. Where no
    /// candidate has that hash nothing changes and `SealNotFound` is
    /// reported.
    fn submit_seal(&mut self, pow_hash: BlockHash, seal: Vec<Vec<u8>>) -> (result: Result<SealedBlock, Error>)
        requires
            old(self).sound(),
        ensures
            final(self).sound(),
            final(self).state() == old(self).state().after_seal(pow_hash),
            match result {
                Ok(sealed) => old(self).state().sealed(pow_hash) == Ok::<ClosedBlock, Error>(sealed.block) && sealed.seal
                    == seal,
                Err(error) => old(self).state().sealed(pow_hash) == Err::<ClosedBlock, Error>(error),
            },
    ;

    /// Applies `f` to the candidate that is offered for work; `None` where
    /// the miner is idle or sealing is switched off.
    fn map_sealing_work<T, F: FnOnce(&ClosedBlock) -> T>(&self, f: F) -> (mapped: Option<T>)
        requires
            self.sound(),
            forall|block: &ClosedBlock| f.requires((block,)),
        ensures
            match mapped {
                Some(value) => self.state().work() is Some && f.ensures((&self.state().work().unwrap(),), value),
                None => self.state().work() is None,
            },
    ;

    /// Imports transactions that came from the network, each with the details
    /// that `accounts` gives for its sender. Every transaction gets its own
    /// result, in the order given: one that is refused does not stop the
    /// others.
    fn import_external_transactions(&mut self, transactions: &Vec<Transaction>, accounts: &AccountSnapshot) -> (results:
        Vec<Result<TransactionImportResult, Error>>)
        requires
            old(self).sound(),
            old(self).state().pool.clock + transactions@.len() <= u64::MAX,
            forall|i: int| 0 <= i < transactions@.len() ==> accounts@.contains_key((#[trigger] transactions@[i]).sender),
        ensures
            final(self).sound(),
            final(self).state() == (MinerState {
                pool: old(self).state().pool.after_returns(transactions@, accounts@),
                ..old(self).state()
            }),
            results@ == batch_results(old(self).state().pool, transactions@, accounts@),
    ;

    /// Imports a transaction of the node's owner.
    fn import_own_transaction(&mut self, tx: Transaction, details: AccountDetails) -> (result: Result<
        TransactionImportResult,
        Error,
    >)
        requires
            old(self).sound(),
            old(self).state().pool.clock < u64::MAX,
        ensures
            final(self).sound(),
            final(self).state() == (MinerState {
                pool: old(self).state().pool.after_import(tx, details, Origin::Local),
                ..old(self).state()
            }),
            result == old(self).state().pool.import_result(tx, details, Origin::Local),
    ;

    /// Imports a transaction of the node's owner that had to be signed first.
    /// `signed` is what signing gave: `None` where it failed, which is
    /// reported as `AuthenticationFailed` and leaves the pool as it was. A
    /// signed transaction is imported as the owner's, and its hash and
    /// sequence number are returned where the pool admits it.
    fn import_incomplete_transaction(&mut self, signed: Option<Transaction>, details: AccountDetails) -> (result:
        Result<(TxHash, u64), Error>)
        requires
            old(self).sound(),
            old(self).state().pool.clock < u64::MAX,
        ensures
            final(self).sound(),
            match signed {
                None => final(self).state() == old(self).state() && result == Err::<(TxHash, u64), Error>(
                    Error::AuthenticationFailed,
                ),
                Some(tx) => {
                    &&& final(self).state() == (MinerState {
                        pool: old(self).state().pool.after_import(tx, details, Origin::Local),
                        ..old(self).state()
                    })
                    &&& result == match old(self).state().pool.rejection(tx, details) {
                        Some(error) => Err::<(TxHash, u64), Error>(error),
                        None => Ok::<(TxHash, u64), Error>((tx.hash, tx.seq)),
                    }
                },
            },
    ;

    /// The current transactions that the index range asks for, in listing
    /// order.
    fn ready_transactions(&self, range: Range<u64>) -> (txs: Vec<Transaction>)
        requires
            self.sound(),
        ensures
            txs@ == transactions_of(page(listing(self.state().pool.entries, true), range.start, range.end)),
            is_listing(self.state().pool.entries, true, listing(self.state().pool.entries, true)),
    ;

    /// The future transactions that the index range asks for, in listing
    /// order.
    fn future_ready_transactions(&self, range: Range<u64>) -> (txs: Vec<Transaction>)
        requires
            self.sound(),
        ensures
            txs@ == transactions_of(page(listing(self.state().pool.entries, false), range.start, range.end)),
            is_listing(self.state().pool.entries, false, listing(self.state().pool.entries, false)),
    ;

    /// How many current transactions the index range covers.
    fn count_pending_transactions(&self, range: Range<u64>) -> (count: usize)
        requires
            self.sound(),
        ensures
            count == page(listing(self.state().pool.entries, true), range.start, range.end).len(),
            is_listing(self.state().pool.entries, true, listing(self.state().pool.entries, true)),
    ;

    /// How many transactions, current and future together, the index range
    /// covers.
    fn future_included_count_pending_transactions(&self, range: Range<u64>) -> (count: usize)
        requires
            self.sound(),
        ensures
            count == page_end(self.state().pool.entries.len(), range.start, range.end) - page_start(
                self.state().pool.entries.len(),
                range.start,
            ),
    ;

    /// All future transactions, in listing order.
    fn future_transactions(&self) -> (txs: Vec<Transaction>)
        requires
            self.sound(),
        ensures
            txs@ == transactions_of(listing(self.state().pool.entries, false)),
            is_listing(self.state().pool.entries, false, listing(self.state().pool.entries, false)),
    ;

    /// Switches sealing on. The caller then asks for a candidate with
    /// `update_sealing`.
    fn start_sealing(&mut self)
        requires
            old(self).sound(),
        ensures
            final(self).sound(),
            final(self).state() == old(self).state().started(),
    ;

    /// Switches sealing off and drops every candidate: no work is offered and
    /// no seal is accepted until sealing is switched on again.
    fn stop_sealing(&mut self)
        requires
            old(self).sound(),
        ensures
            final(self).sound(),
            final(self).state() == old(self).state().stopped(),
    ;

    /// The senders whose transactions are refused, each once.
    fn get_malicious_users(&self) -> (users: Vec<Address>)
        requires
            self.sound(),
        ensures
            users@.no_duplicates(),
            users@.to_set() == self.state().pool.malicious,
    ;

    /// Takes each of `prisoner_vec` out of the malicious set.
    fn release_malicious_users(&mut self, prisoner_vec: Vec<Address>)
        requires
            old(self).sound(),
        ensures
            final(self).sound(),
            final(self).state() == (MinerState {
                pool: old(self).state().pool.released(prisoner_vec@.to_set()),
                ..old(self).state()
            }),
    ;

    /// Puts each of `prisoner_vec` that is not immune into the malicious set.
    fn imprison_malicious_users(&mut self, prisoner_vec: Vec<Address>)
        requires
            old(self).sound(),
        ensures
            final(self).sound(),
            final(self).state() == (MinerState {
                pool: old(self).state().pool.imprisoned(prisoner_vec@.to_set()),
                ..old(self).state()
            }),
    ;

    /// The senders that cannot be imprisoned, each once.
    fn get_immune_users(&self) -> (users: Vec<Address>)
        requires
            self.sound(),
        ensures
            users@.no_duplicates(),
            users@.to_set() == self.state().pool.immune,
    ;

    /// Puts each of `immune_user_vec` into the immune set.
    fn register_immune_users(&mut self, immune_user_vec: Vec<Address>)
        requires
            old(self).sound(),
        ensures
            final(self).sound(),
            final(self).state() == (MinerState {
                pool: old(self).state().pool.immunised(immune_user_vec@.to_set()),
                ..old(self).state()
            }),
    ;
}

/// The miner.
pub struct Miner {
    pool: MemPool,
    queue: SealingQueue,
    status: SealingStatus,
    params: AuthoringParams,
    parent: Option<BlockHash>,
}

impl View for Miner {
    type V = MinerState;

    closed spec fn view(&self) -> MinerState {
        MinerState {
            pool: self.pool@,
            queue: self.queue@,
            capacity: self.queue.capacity(),
            status: self.status,
            author: self.params.author,
            extra_data: self.params.extra_data@,
            parent: self.parent,
        }
    }
}

impl Miner {
    /// The parts keep their own invariants.
    pub closed spec fn parts_wf(&self) -> bool {
        self.pool.wf() && self.queue.wf()
    }

    /// The invariant that every operation keeps.
    pub open spec fn wf(&self) -> bool {
        self@.valid() && self.parts_wf()
    }

    /// A miner with an empty pool and an empty queue, sealing switched off.
    pub fn new(options: MinerOptions, author: Address) -> (miner: Self)
        ensures
            miner.wf(),
            miner@ == (MinerState {
                pool: PoolState {
                    entries: Seq::empty(),
                    clock: 0,
                    limit: options.mem_pool_size,
                    min_fee: options.mem_pool_min_fee,
                    malicious: Set::empty(),
                    immune: Set::empty(),
                },
                queue: Seq::empty(),
                capacity: options.work_queue_size,
                status: SealingStatus::Disabled,
                author,
                extra_data: Seq::empty(),
                parent: None,
            }),
    {
        Miner {
            pool: MemPool::new(options.mem_pool_size, options.mem_pool_min_fee),
            queue: SealingQueue::new(options.work_queue_size),
            status: SealingStatus::Disabled,
            params: AuthoringParams { author, extra_data: Vec::new() },
            parent: None,
        }
    }

    /// Where the sealing state machine stands.
    pub fn sealing_status(&self) -> (status: SealingStatus)
        ensures
            status == self@.status,
    {
        self.status
    }

    /// The pool's entries in arrival order.
    pub fn pool_entries(&self) -> (entries: Vec<PoolEntry>)
        ensures
            entries@ == self@.pool.entries,
    {
        self.pool.entries()
    }

    /// Tells whether the pool can stamp `arrivals` more entries.
    pub fn can_stamp(&self, arrivals: usize) -> (ok: bool)
        ensures
            ok == (self@.pool.clock + arrivals <= u64::MAX),
    {
        self.pool.can_stamp(arrivals)
    }

    /// The sequence number that the next transaction of `sender` should
    /// carry, given that the chain resolves the sender to `details`: the
    /// first one from `details.seq` on that the pool does not hold for the
    /// sender. `None` where the pool holds them all.
    pub fn next_seq(&self, sender: Address, details: AccountDetails) -> (next: Option<u64>)
        ensures
            match next {
                Some(seq) => {
                    &&& details.seq <= seq
                    &&& !holds(self@.pool.entries, sender, seq)
                    &&& forall|k: u64| details.seq <= k < seq ==> #[trigger] holds(self@.pool.entries, sender, k)
                },
                None => forall|k: u64| details.seq <= k ==> #[trigger] holds(self@.pool.entries, sender, k),
            },
    {
        self.pool.next_seq(sender, details)
    }
}

impl MinerService for Miner {
    open spec fn state(&self) -> MinerState {
        self@
    }

    open spec fn sound(&self) -> bool {
        self.wf()
    }

    fn status(&self) -> (status: MinerStatus)
    {
        let all = Range { start: 0u64, end: u64::MAX };
        let pending = self.pool.count_pending(Range { start: 0u64, end: u64::MAX });
        let future = self.pool.future(all).len();
        let embedded = match self.status {
            SealingStatus::Authoring => match self.queue.newest() {
                Some(block) => block.transactions.len(),
                None => 0,
            },
            _ => 0,
        };
        MinerStatus {
            transactions_in_pending_queue: pending,
            transactions_in_future_queue: future,
            tranasction_in_pending_block: embedded,
        }
    }

    fn authoring_params(&self) -> (params: AuthoringParams)
    {
        AuthoringParams { author: self.params.author, extra_data: copy_of(&self.params.extra_data) }
    }

    fn set_author(&mut self, author: Address)
    {
        self.params.author = author;
    }

    fn get_author_address(&self) -> (author: Address)
    {
        self.params.author
    }

    fn set_extra_data(&mut self, extra_data: Vec<u8>)
    {
        self.params.extra_data = extra_data;
    }

    fn transactions_limit(&self) -> (limit: usize)
    {
        self.pool.limit()
    }

    fn set_transactions_limit(&mut self, limit: usize)
    {
        self.pool.set_limit(limit);
    }

    fn chain_new_blocks(&mut self, retracted: &Vec<Transaction>, accounts: &AccountSnapshot) -> (reseal: bool)
    {
        self.pool.reconcile_on_chain_change(retracted, accounts);
        match self.status {
            SealingStatus::Disabled => false,
            _ => true,
        }
    }

    fn update_sealing(&mut self, parent: BlockHash) -> (job: Option<SealingJob>)
    {
        match self.status {
            SealingStatus::Disabled => {
                return None;
            },
            _ => {},
        }
        let same = match self.parent {
            Some(current) => current == parent,
            None => false,
        };
        if !same {
            self.queue.clear();
            self.status = SealingStatus::Idle;
            self.parent = Some(parent);
        }
        let transactions = self.pool.ready(Range { start: 0u64, end: u64::MAX });
        proof {
            let list = listing(self@.pool.entries, true);
            assert(page(list, 0, u64::MAX) == list);
        }
        Some(
            SealingJob {
                parent,
                author: self.params.author,
                extra_data: copy_of(&self.params.extra_data),
                transactions,
            },
        )
    }

    fn accept_candidate(&mut self, block: ClosedBlock, allow_empty_block: bool) -> (notify: bool)
    {
        match self.status {
            SealingStatus::Disabled => {
                return false;
            },
            _ => {},
        }
        let on_parent = match self.parent {
            Some(current) => current == block.parent,
            None => false,
        };
        if !on_parent {
            return false;
        }
        if block.transactions.len() == 0 && !allow_empty_block {
            self.status = SealingStatus::Idle;
            return false;
        }
        proof {
            crate::sealing_queue::lemma_pushed_distinct(self.queue@, self.queue.capacity(), block);
        }
        self.queue.push(block);
        self.status = if self.queue.len() > 0 {
            SealingStatus::Authoring
        } else {
            SealingStatus::Idle
        };
        true
    }

    fn submit_seal(&mut self, pow_hash: BlockHash, seal: Vec<Vec<u8>>) -> (result: Result<SealedBlock, Error>)
    {
        match self.queue.take(pow_hash) {
            Some(block) => {
                if self.queue.len() == 0 {
                    match self.status {
                        SealingStatus::Authoring => {
                            self.status = SealingStatus::Idle;
                        },
                        _ => {},
                    }
                }
                Ok(SealedBlock { block, seal })
            },
            None => Err(Error::SealNotFound),
        }
    }

    fn map_sealing_work<T, F: FnOnce(&ClosedBlock) -> T>(&self, f: F) -> (mapped: Option<T>)
    {
        match self.status {
            SealingStatus::Authoring => match self.queue.newest() {
                Some(block) => Some(f(block)),
                None => None,
            },
            _ => None,
        }
    }

    fn import_external_transactions(&mut self, transactions: &Vec<Transaction>, accounts: &AccountSnapshot) -> (results:
        Vec<Result<TransactionImportResult, Error>>)
    {
        let ghost start = self@.pool;
        let mut results: Vec<Result<TransactionImportResult, Error>> = Vec::new();
        let mut i: usize = 0;
        while i < transactions.len()
            invariant
                i <= transactions.len(),
                self.wf(),
                self@ == (MinerState { pool: self@.pool, ..old(self)@ }),
                self@.pool == start.after_returns(transactions@.take(i as int), accounts@),
                results@ == batch_results(start, transactions@.take(i as int), accounts@),
                self@.pool.clock <= start.clock + i,
                start.clock + transactions@.len() <= u64::MAX,
                forall|k: int|
                    0 <= k < transactions@.len() ==> accounts@.contains_key((#[trigger] transactions@[k]).sender),
            decreases transactions.len() - i,
        {
            let tx = transactions[i];
            proof {
                assert(transactions@.take(i + 1).drop_last() == transactions@.take(i as int));
                assert(transactions@.take(i + 1).last() == tx);
                assert(accounts@.contains_key(transactions@[i as int].sender));
            }
            match accounts.resolve(tx.sender) {
                Some(details) => {
                    let result = self.pool.import(tx, details, Origin::External);
                    results.push(result);
                },
                None => {},
            }
            i += 1;
        }
        proof {
            assert(transactions@.take(transactions@.len() as int) == transactions@);
        }
        results
    }

    fn import_own_transaction(&mut self, tx: Transaction, details: AccountDetails) -> (result: Result<
        TransactionImportResult,
        Error,
    >)
    {
        self.pool.import(tx, details, Origin::Local)
    }

    fn import_incomplete_transaction(&mut self, signed: Option<Transaction>, details: AccountDetails) -> (result:
        Result<(TxHash, u64), Error>)
    {
        match signed {
            None => Err(Error::AuthenticationFailed),
            Some(tx) => match self.pool.import(tx, details, Origin::Local) {
                Ok(_) => Ok((tx.hash, tx.seq)),
                Err(error) => Err(error),
            },
        }
    }

    fn ready_transactions(&self, range: Range<u64>) -> (txs: Vec<Transaction>)
    {
        self.pool.ready(range)
    }

    fn future_ready_transactions(&self, range: Range<u64>) -> (txs: Vec<Transaction>)
    {
        self.pool.future(range)
    }

    fn count_pending_transactions(&self, range: Range<u64>) -> (count: usize)
    {
        self.pool.count_pending(range)
    }

    fn future_included_count_pending_transactions(&self, range: Range<u64>) -> (count: usize)
    {
        self.pool.count_future_included(range)
    }

    fn future_transactions(&self) -> (txs: Vec<Transaction>)
    {
        let txs = self.pool.future(Range { start: 0u64, end: u64::MAX });
        proof {
            let list = listing(self@.pool.entries, false);
            assert(page(list, 0, u64::MAX) == list);
        }
        txs
    }

    fn start_sealing(&mut self)
    {
        match self.status {
            SealingStatus::Disabled => {
                self.status = SealingStatus::Idle;
            },
            _ => {},
        }
    }

    fn stop_sealing(&mut self)
    {
        self.status = SealingStatus::Disabled;
        self.queue.clear();
        self.parent = None;
    }

    fn get_malicious_users(&self) -> (users: Vec<Address>)
    {
        self.pool.malicious_users()
    }

    fn release_malicious_users(&mut self, prisoner_vec: Vec<Address>)
    {
        self.pool.release(&prisoner_vec);
    }

    fn imprison_malicious_users(&mut self, prisoner_vec: Vec<Address>)
    {
        self.pool.imprison(&prisoner_vec);
    }

    fn get_immune_users(&self) -> (users: Vec<Address>)
    {
        self.pool.immune_users()
    }

    fn register_immune_users(&mut self, immune_user_vec: Vec<Address>)
    {
        self.pool.register_immune(&immune_user_vec);
    }
}

} // verus!
