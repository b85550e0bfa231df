use miner_core::{BlockHash, ClosedBlock, SealingQueue, Transaction, TxHash, Address};

fn block(hash: u128, transactions: usize) -> ClosedBlock {
    let tx = Transaction {
        hash: TxHash { high: 0, low: 1 },
        sender: Address { head: 0, tail: 1 },
        seq: 0,
        fee: 1,
    };
    ClosedBlock {
        hash: BlockHash { high: 0, low: hash },
        parent: BlockHash { high: 0, low: 0 },
        transactions: vec![tx; transactions],
    }
}

fn hash(n: u128) -> BlockHash {
    BlockHash { high: 0, low: n }
}

#[test]
fn a_new_queue_is_empty() {
    let mut queue = SealingQueue::new(3);
    assert_eq!(queue.len(), 0);
    assert!(queue.newest().is_none());
    assert!(queue.take(hash(1)).is_none());
}

#[test]
fn take_removes_the_block_of_the_hash() {
    let mut queue = SealingQueue::new(3);
    queue.push(block(1, 1));
    queue.push(block(2, 2));
    queue.push(block(3, 3));
    let taken = queue.take(hash(2)).unwrap();
    assert_eq!(taken.hash, hash(2));
    assert_eq!(taken.transactions.len(), 2);
    assert_eq!(queue.len(), 2);
    assert!(queue.take(hash(2)).is_none());
    assert_eq!(queue.len(), 2);
    assert_eq!(queue.newest().unwrap().hash, hash(3));
    assert_eq!(queue.take(hash(3)).unwrap().transactions.len(), 3);
    assert_eq!(queue.newest().unwrap().hash, hash(1));
}

#[test]
fn push_evicts_the_oldest_beyond_the_capacity() {
    let mut queue = SealingQueue::new(2);
    queue.push(block(1, 0));
    queue.push(block(2, 0));
    queue.push(block(3, 0));
    assert_eq!(queue.len(), 2);
    assert!(queue.take(hash(1)).is_none());
    assert!(queue.take(hash(2)).is_some());
    assert!(queue.take(hash(3)).is_some());
    assert_eq!(queue.len(), 0);
}

#[test]
fn a_block_of_a_queued_hash_takes_its_place_as_the_newest() {
    let mut queue = SealingQueue::new(2);
    queue.push(block(1, 1));
    queue.push(block(2, 0));
    queue.push(block(1, 5));
    assert_eq!(queue.len(), 2);
    assert_eq!(queue.newest().unwrap().hash, hash(1));
    assert_eq!(queue.newest().unwrap().transactions.len(), 5);
    assert!(queue.take(hash(2)).is_some());
    assert_eq!(queue.take(hash(1)).unwrap().transactions.len(), 5);
    assert!(queue.take(hash(1)).is_none());
}

#[test]
fn a_queue_of_capacity_zero_stays_empty() {
    let mut queue = SealingQueue::new(0);
    queue.push(block(1, 0));
    assert_eq!(queue.len(), 0);
    assert!(queue.take(hash(1)).is_none());
}

#[test]
fn clear_drops_every_block() {
    let mut queue = SealingQueue::new(4);
    queue.push(block(1, 0));
    queue.push(block(2, 0));
    queue.clear();
    assert_eq!(queue.len(), 0);
    assert!(queue.newest().is_none());
    assert!(queue.take(hash(1)).is_none());
    queue.push(block(1, 0));
    assert_eq!(queue.len(), 1);
}
