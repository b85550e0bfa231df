//! Mining-side coordination core of a full node: the transaction pool with its
//! current/future partition, the queue of candidate blocks awaiting a seal, and
//! the sealing state machine that ties them together.
//!
//! Every function is verified against the contract written on it, but for the
//! one call into `rustc_hex`, whose contract is taken on trust. Chain state,
//! block assembly and signing are performed by the caller and handed in as plain
//! values.

pub mod account;
pub mod asset_input;
pub mod debug_info;
pub mod error;
pub mod mem_pool;
pub mod miner;
pub mod pool_laws;
pub mod pool_model;
mod pool_ops;
pub mod primitives;
pub mod sealing_queue;

pub use account::AccountSnapshot;
pub use asset_input::{AssetOutPoint, AssetOutPointType, AssetTransferInput, AssetTransferInputType, Timelock, Uint};
pub use debug_info::{DebugInfo, Read};
pub use error::Error;
pub use mem_pool::MemPool;
pub use miner::{
    AuthoringParams, Miner, MinerOptions, MinerService, MinerState, MinerStatus, SealedBlock, SealingJob,
    SealingStatus, TransactionImportResult,
};
pub use pool_model::{Origin, PoolEntry, PoolState};
pub use primitives::{AccountDetails, Address, BlockHash, Tracker, Transaction, TxHash, H160};
pub use sealing_queue::{ClosedBlock, SealingQueue};
