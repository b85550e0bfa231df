use miner_core::miner::chain_import_result;
use miner_core::{
    AccountDetails, AccountSnapshot, Address, BlockHash, ClosedBlock, Error, Miner, MinerOptions, MinerService,
    SealingStatus, Transaction, TransactionImportResult, TxHash,
};

fn address(n: u128) -> Address {
    Address { head: 0, tail: n }
}

fn block_hash(n: u128) -> BlockHash {
    BlockHash { high: 0, low: n }
}

fn transaction(sender: u128, seq: u64, fee: u64, id: u128) -> Transaction {
    Transaction { hash: TxHash { high: 0, low: id }, sender: address(sender), seq, fee }
}

fn on_chain(seq: u64) -> AccountDetails {
    AccountDetails { seq, balance: 1_000 }
}

fn candidate(hash: u128, parent: u128, transactions: Vec<Transaction>) -> ClosedBlock {
    ClosedBlock { hash: block_hash(hash), parent: block_hash(parent), transactions }
}

fn miner(pool: usize, queue: usize) -> Miner {
    Miner::new(MinerOptions { mem_pool_size: pool, mem_pool_min_fee: 0, work_queue_size: queue }, address(100))
}

fn ids(transactions: &[Transaction]) -> Vec<u128> {
    transactions.iter().map(|t| t.hash.low).collect()
}

#[test]
fn a_new_miner_is_disabled_and_empty() {
    let m = miner(8, 4);
    assert_eq!(m.sealing_status(), SealingStatus::Disabled);
    let status = m.status();
    assert_eq!(status.transactions_in_pending_queue, 0);
    assert_eq!(status.transactions_in_future_queue, 0);
    assert_eq!(status.tranasction_in_pending_block, 0);
    assert_eq!(m.transactions_limit(), 8);
    assert_eq!(m.get_author_address(), address(100));
    assert!(m.authoring_params().extra_data.is_empty());
    assert_eq!(m.map_sealing_work(|b| b.hash), None);
}

#[test]
fn authoring_parameters_can_be_set() {
    let mut m = miner(8, 4);
    m.set_author(address(5));
    m.set_extra_data(vec![1, 2, 3]);
    assert_eq!(m.get_author_address(), address(5));
    let params = m.authoring_params();
    assert_eq!(params.author, address(5));
    assert_eq!(params.extra_data, vec![1, 2, 3]);
}

#[test]
fn sealing_is_switched_on_and_off() {
    let mut m = miner(8, 4);
    m.start_sealing();
    assert_eq!(m.sealing_status(), SealingStatus::Idle);
    m.start_sealing();
    assert_eq!(m.sealing_status(), SealingStatus::Idle);
    m.stop_sealing();
    assert_eq!(m.sealing_status(), SealingStatus::Disabled);
}

#[test]
fn update_sealing_does_nothing_while_disabled() {
    let mut m = miner(8, 4);
    m.import_own_transaction(transaction(1, 0, 10, 1), on_chain(0)).unwrap();
    assert!(m.update_sealing(block_hash(1)).is_none());
    assert!(!m.accept_candidate(candidate(10, 1, vec![transaction(1, 0, 10, 1)]), true));
    assert_eq!(m.sealing_status(), SealingStatus::Disabled);
    assert_eq!(m.map_sealing_work(|b| b.hash), None);
}

#[test]
fn update_sealing_hands_out_the_ready_snapshot() {
    let mut m = miner(8, 4);
    m.set_extra_data(vec![9]);
    m.import_own_transaction(transaction(1, 0, 10, 1), on_chain(0)).unwrap();
    m.import_own_transaction(transaction(2, 0, 30, 2), on_chain(0)).unwrap();
    m.import_own_transaction(transaction(2, 2, 90, 3), on_chain(0)).unwrap();
    m.start_sealing();
    let job = m.update_sealing(block_hash(1)).unwrap();
    assert_eq!(job.parent, block_hash(1));
    assert_eq!(job.author, address(100));
    assert_eq!(job.extra_data, vec![9]);
    assert_eq!(ids(&job.transactions), vec![2, 1]);
    assert_eq!(m.sealing_status(), SealingStatus::Idle);
}

#[test]
fn a_later_import_is_not_in_an_earlier_snapshot() {
    let mut m = miner(8, 4);
    m.start_sealing();
    m.import_own_transaction(transaction(1, 0, 10, 1), on_chain(0)).unwrap();
    let first = m.update_sealing(block_hash(1)).unwrap();
    m.import_own_transaction(transaction(2, 0, 30, 2), on_chain(0)).unwrap();
    assert_eq!(ids(&first.transactions), vec![1]);
    let second = m.update_sealing(block_hash(1)).unwrap();
    assert_eq!(ids(&second.transactions), vec![2, 1]);
}

#[test]
fn an_empty_candidate_leaves_the_miner_idle_unless_allowed() {
    let mut m = miner(8, 4);
    m.start_sealing();
    m.update_sealing(block_hash(1)).unwrap();
    assert!(!m.accept_candidate(candidate(10, 1, vec![]), false));
    assert_eq!(m.sealing_status(), SealingStatus::Idle);
    assert_eq!(m.map_sealing_work(|b| b.hash), None);
    assert!(m.accept_candidate(candidate(10, 1, vec![]), true));
    assert_eq!(m.sealing_status(), SealingStatus::Authoring);
    assert_eq!(m.map_sealing_work(|b| b.hash), Some(block_hash(10)));
    assert_eq!(m.status().tranasction_in_pending_block, 0);
}

#[test]
fn a_candidate_with_transactions_is_offered_for_work() {
    let mut m = miner(8, 4);
    m.start_sealing();
    m.update_sealing(block_hash(1)).unwrap();
    let txs = vec![transaction(1, 0, 10, 1), transaction(2, 0, 10, 2)];
    assert!(m.accept_candidate(candidate(10, 1, txs), false));
    assert_eq!(m.sealing_status(), SealingStatus::Authoring);
    assert_eq!(m.map_sealing_work(|b| b.transactions.len()), Some(2));
    assert_eq!(m.status().tranasction_in_pending_block, 2);
    assert!(m.accept_candidate(candidate(11, 1, vec![transaction(1, 0, 10, 1)]), false));
    assert_eq!(m.map_sealing_work(|b| b.hash), Some(block_hash(11)));
    assert!(!m.accept_candidate(candidate(12, 1, vec![]), false));
    assert_eq!(m.sealing_status(), SealingStatus::Idle);
    assert_eq!(m.map_sealing_work(|b| b.hash), None);
}

#[test]
fn a_candidate_on_another_parent_is_discarded() {
    let mut m = miner(8, 4);
    m.start_sealing();
    m.update_sealing(block_hash(1)).unwrap();
    assert!(m.accept_candidate(candidate(10, 1, vec![]), true));
    assert!(!m.accept_candidate(candidate(11, 2, vec![transaction(1, 0, 10, 1)]), true));
    assert_eq!(m.sealing_status(), SealingStatus::Authoring);
    assert_eq!(m.map_sealing_work(|b| b.hash), Some(block_hash(10)));
    assert!(m.submit_seal(block_hash(11), vec![]).is_err());
}

#[test]
fn a_seal_is_accepted_once() {
    let mut m = miner(8, 4);
    m.start_sealing();
    m.update_sealing(block_hash(1)).unwrap();
    m.accept_candidate(candidate(10, 1, vec![transaction(1, 0, 10, 1)]), false);
    let sealed = m.submit_seal(block_hash(10), vec![vec![1, 2], vec![3]]).ok().unwrap();
    assert_eq!(sealed.block.hash, block_hash(10));
    assert_eq!(sealed.block.parent, block_hash(1));
    assert_eq!(ids(&sealed.block.transactions), vec![1]);
    assert_eq!(sealed.seal, vec![vec![1, 2], vec![3]]);
    assert_eq!(m.submit_seal(block_hash(10), vec![vec![1, 2], vec![3]]).err(), Some(Error::SealNotFound));
    assert_eq!(m.sealing_status(), SealingStatus::Idle);
    assert_eq!(m.map_sealing_work(|b| b.hash), None);
}

#[test]
fn a_seal_for_an_unknown_hash_is_not_found() {
    let mut m = miner(8, 4);
    assert_eq!(m.submit_seal(block_hash(10), vec![]).err(), Some(Error::SealNotFound));
    m.start_sealing();
    m.update_sealing(block_hash(1)).unwrap();
    m.accept_candidate(candidate(10, 1, vec![]), true);
    assert_eq!(m.submit_seal(block_hash(11), vec![]).err(), Some(Error::SealNotFound));
    assert_eq!(m.submit_seal(BlockHash { high: 1, low: 10 }, vec![]).err(), Some(Error::SealNotFound));
    assert_eq!(m.sealing_status(), SealingStatus::Authoring);
    assert!(m.submit_seal(block_hash(10), vec![]).is_ok());
}

#[test]
fn an_older_candidate_can_still_be_sealed() {
    let mut m = miner(8, 4);
    m.start_sealing();
    m.update_sealing(block_hash(1)).unwrap();
    m.accept_candidate(candidate(10, 1, vec![]), true);
    m.accept_candidate(candidate(11, 1, vec![]), true);
    assert!(m.submit_seal(block_hash(10), vec![]).is_ok());
    assert_eq!(m.sealing_status(), SealingStatus::Authoring);
    assert_eq!(m.map_sealing_work(|b| b.hash), Some(block_hash(11)));
    assert!(m.submit_seal(block_hash(11), vec![]).is_ok());
    assert_eq!(m.sealing_status(), SealingStatus::Idle);
}

#[test]
fn the_queue_keeps_no_more_than_its_capacity() {
    let mut m = miner(8, 2);
    m.start_sealing();
    m.update_sealing(block_hash(1)).unwrap();
    m.accept_candidate(candidate(10, 1, vec![]), true);
    m.accept_candidate(candidate(11, 1, vec![]), true);
    m.accept_candidate(candidate(12, 1, vec![]), true);
    assert_eq!(m.submit_seal(block_hash(10), vec![]).err(), Some(Error::SealNotFound));
    assert!(m.submit_seal(block_hash(11), vec![]).is_ok());
    assert!(m.submit_seal(block_hash(12), vec![]).is_ok());
}

#[test]
fn a_queue_of_capacity_zero_offers_nothing() {
    let mut m = miner(8, 0);
    m.start_sealing();
    m.update_sealing(block_hash(1)).unwrap();
    assert!(m.accept_candidate(candidate(10, 1, vec![]), true));
    assert_eq!(m.sealing_status(), SealingStatus::Idle);
    assert_eq!(m.map_sealing_work(|b| b.hash), None);
    assert_eq!(m.submit_seal(block_hash(10), vec![]).err(), Some(Error::SealNotFound));
}

#[test]
fn a_new_parent_drops_the_candidates() {
    let mut m = miner(8, 4);
    m.start_sealing();
    m.update_sealing(block_hash(1)).unwrap();
    m.accept_candidate(candidate(10, 1, vec![]), true);
    m.update_sealing(block_hash(1)).unwrap();
    assert_eq!(m.sealing_status(), SealingStatus::Authoring);
    m.update_sealing(block_hash(2)).unwrap();
    assert_eq!(m.sealing_status(), SealingStatus::Idle);
    assert_eq!(m.map_sealing_work(|b| b.hash), None);
    assert_eq!(m.submit_seal(block_hash(10), vec![]).err(), Some(Error::SealNotFound));
}

#[test]
fn stopping_drops_the_candidates_and_discards_what_comes_late() {
    let mut m = miner(8, 4);
    m.start_sealing();
    m.update_sealing(block_hash(1)).unwrap();
    m.accept_candidate(candidate(10, 1, vec![]), true);
    m.update_sealing(block_hash(1)).unwrap();
    m.stop_sealing();
    assert_eq!(m.map_sealing_work(|b| b.hash), None);
    assert!(!m.accept_candidate(candidate(11, 1, vec![]), true));
    assert_eq!(m.submit_seal(block_hash(10), vec![]).err(), Some(Error::SealNotFound));
    assert_eq!(m.submit_seal(block_hash(11), vec![]).err(), Some(Error::SealNotFound));
    m.start_sealing();
    assert_eq!(m.sealing_status(), SealingStatus::Idle);
    assert!(!m.accept_candidate(candidate(11, 1, vec![]), true));
}

#[test]
fn every_external_transaction_gets_its_own_result() {
    let mut m = miner(8, 4);
    m.imprison_malicious_users(vec![address(3)]);
    let mut chain = AccountSnapshot::new();
    chain.insert(address(1), on_chain(5));
    chain.insert(address(2), on_chain(0));
    chain.insert(address(3), on_chain(0));
    let batch = vec![
        transaction(1, 4, 10, 1),
        transaction(1, 6, 10, 2),
        transaction(3, 0, 10, 3),
        transaction(1, 5, 10, 4),
        transaction(1, 5, 10, 5),
        transaction(2, 0, 10, 6),
    ];
    let results = m.import_external_transactions(&batch, &chain);
    assert_eq!(
        results,
        vec![
            Err(Error::StaleSequence),
            Ok(TransactionImportResult::Future),
            Err(Error::SenderBanned),
            Ok(TransactionImportResult::Current),
            Err(Error::Underpriced),
            Ok(TransactionImportResult::Current),
        ]
    );
    let status = m.status();
    assert_eq!(status.transactions_in_pending_queue, 3);
    assert_eq!(status.transactions_in_future_queue, 0);
    assert!(m.import_external_transactions(&vec![], &chain).is_empty());
}

#[test]
fn an_own_transaction_is_imported() {
    let mut m = miner(1, 4);
    assert_eq!(m.import_own_transaction(transaction(1, 3, 10, 1), on_chain(0)), Ok(TransactionImportResult::Future));
    assert_eq!(m.import_own_transaction(transaction(2, 3, 10, 2), on_chain(0)), Err(Error::PoolFull));
    assert_eq!(ids(&m.future_transactions()), vec![1]);
}

#[test]
fn an_incomplete_transaction_needs_a_signature() {
    let mut m = miner(8, 4);
    assert_eq!(m.import_incomplete_transaction(None, on_chain(0)), Err(Error::AuthenticationFailed));
    assert_eq!(m.status().transactions_in_pending_queue, 0);
    let tx = transaction(1, 0, 10, 77);
    assert_eq!(m.import_incomplete_transaction(Some(tx), on_chain(0)), Ok((tx.hash, 0)));
    assert_eq!(m.import_incomplete_transaction(Some(tx), on_chain(0)), Err(Error::Underpriced));
    assert_eq!(m.import_incomplete_transaction(Some(transaction(1, 0, 10, 78)), on_chain(1)), Err(Error::StaleSequence));
    assert_eq!(m.status().transactions_in_pending_queue, 1);
}

#[test]
fn new_blocks_reconcile_the_pool_and_ask_for_a_candidate_while_sealing() {
    let mut m = miner(8, 4);
    m.import_own_transaction(transaction(1, 5, 10, 1), on_chain(5)).unwrap();
    m.import_own_transaction(transaction(1, 6, 10, 2), on_chain(5)).unwrap();
    let mut chain = AccountSnapshot::new();
    chain.insert(address(1), on_chain(6));
    assert!(!m.chain_new_blocks(&vec![], &chain));
    assert_eq!(ids(&m.ready_transactions(0..u64::MAX)), vec![2]);
    m.start_sealing();
    let mut chain = AccountSnapshot::new();
    chain.insert(address(1), on_chain(5));
    assert!(m.chain_new_blocks(&vec![transaction(1, 5, 10, 1)], &chain));
    assert_eq!(ids(&m.ready_transactions(0..u64::MAX)), vec![1, 2]);
}

#[test]
fn the_limit_can_be_changed() {
    let mut m = miner(8, 4);
    m.import_own_transaction(transaction(1, 0, 10, 1), on_chain(0)).unwrap();
    m.import_own_transaction(transaction(2, 0, 20, 2), on_chain(0)).unwrap();
    m.import_own_transaction(transaction(3, 4, 30, 3), on_chain(0)).unwrap();
    m.set_transactions_limit(2);
    assert_eq!(m.transactions_limit(), 2);
    assert_eq!(ids(&m.ready_transactions(0..u64::MAX)), vec![2, 1]);
    assert!(m.future_transactions().is_empty());
    m.set_transactions_limit(1);
    assert_eq!(ids(&m.ready_transactions(0..u64::MAX)), vec![2]);
}

#[test]
fn the_queries_page_through_the_partitions() {
    let mut m = miner(8, 4);
    m.import_own_transaction(transaction(1, 0, 10, 1), on_chain(0)).unwrap();
    m.import_own_transaction(transaction(2, 0, 20, 2), on_chain(0)).unwrap();
    m.import_own_transaction(transaction(3, 4, 30, 3), on_chain(0)).unwrap();
    m.import_own_transaction(transaction(3, 5, 40, 4), on_chain(0)).unwrap();
    assert_eq!(ids(&m.ready_transactions(1..2)), vec![1]);
    assert_eq!(ids(&m.future_ready_transactions(0..1)), vec![3]);
    assert_eq!(ids(&m.future_transactions()), vec![3, 4]);
    assert_eq!(m.count_pending_transactions(0..9), 2);
    assert_eq!(m.count_pending_transactions(1..9), 1);
    assert_eq!(m.future_included_count_pending_transactions(0..9), 4);
    assert_eq!(m.future_included_count_pending_transactions(3..9), 1);
    let status = m.status();
    assert_eq!(status.transactions_in_pending_queue, 2);
    assert_eq!(status.transactions_in_future_queue, 2);
}

#[test]
fn the_address_sets_are_those_of_the_pool() {
    let mut m = miner(8, 4);
    m.register_immune_users(vec![address(2)]);
    m.imprison_malicious_users(vec![address(1), address(2), address(3)]);
    assert_eq!(m.get_malicious_users(), vec![address(1), address(3)]);
    assert_eq!(m.get_immune_users(), vec![address(2)]);
    m.release_malicious_users(vec![address(1)]);
    assert_eq!(m.get_malicious_users(), vec![address(3)]);
    assert_eq!(m.import_own_transaction(transaction(3, 0, 10, 1), on_chain(0)), Err(Error::SenderBanned));
    assert_eq!(m.import_own_transaction(transaction(2, 0, 10, 2), on_chain(0)), Ok(TransactionImportResult::Current));
}

#[test]
fn a_refused_block_is_reported_as_a_failed_chain_import() {
    assert_eq!(chain_import_result(true), Ok(()));
    assert_eq!(chain_import_result(false), Err(Error::ChainImportFailed));
}

#[test]
fn the_miner_tells_the_next_sequence_and_shows_its_entries() {
    let mut m = miner(8, 4);
    assert!(m.can_stamp(8));
    assert_eq!(m.next_seq(address(1), on_chain(3)), Some(3));
    m.import_own_transaction(transaction(1, 3, 10, 1), on_chain(3)).unwrap();
    m.import_own_transaction(transaction(1, 4, 10, 2), on_chain(3)).unwrap();
    m.import_own_transaction(transaction(1, 6, 10, 3), on_chain(3)).unwrap();
    assert_eq!(m.next_seq(address(1), on_chain(3)), Some(5));
    let entries = m.pool_entries();
    assert_eq!(entries.len(), 3);
    assert_eq!(entries[0].tx, transaction(1, 3, 10, 1));
    assert_eq!(entries[2].tx, transaction(1, 6, 10, 3));
    assert_eq!(entries[0].arrival, 0);
    assert_eq!(entries[2].arrival, 2);
    assert_eq!(entries[1].account, on_chain(3));
}

#[test]
fn the_sealing_job_lists_each_sender_in_sequence_order() {
    let mut m = miner(8, 4);
    m.import_own_transaction(transaction(1, 5, 1, 1), on_chain(5)).unwrap();
    m.import_own_transaction(transaction(1, 7, 3, 2), on_chain(5)).unwrap();
    m.import_own_transaction(transaction(1, 6, 2, 3), on_chain(5)).unwrap();
    m.start_sealing();
    let job = m.update_sealing(block_hash(1)).unwrap();
    assert_eq!(job.transactions.iter().map(|t| t.seq).collect::<Vec<u64>>(), vec![5, 6, 7]);
}
