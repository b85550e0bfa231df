//! Asset inputs as the node's interface presents them, and their conversion
//! from and to the form that transactions carry.

use vstd::prelude::*;
use vstd::std_specs::convert::FromSpecImpl;
use crate::primitives::{Tracker, H160};

verus! {

/// The number of a shard.
pub type ShardId = u16;

/// An unsigned number of up to 256 bits, split into two 128-bit halves.
#[derive(Clone, Copy, Debug, PartialEq, Eq, Structural)]
pub struct Uint {
    pub high: u128,
    pub low: u128,
}

impl Uint {
    /// The number's value.
    pub open spec fn value(self) -> nat {
        (self.high * 0x1_0000_0000_0000_0000_0000_0000_0000_0000 + self.low) as nat
    }

    /// The number fits into 64 bits.
    pub open spec fn fits_u64_spec(self) -> bool {
        self.high == 0 && self.low <= u64::MAX
    }

    /// The 256-bit form of `value`.
    pub fn from_u64(value: u64) -> (number: Uint)
        ensures
            number.value() == value,
            number.fits_u64_spec(),
            number == (Uint { high: 0, low: value as u128 }),
    {
        Uint { high: 0, low: value as u128 }
    }

    /// Tells whether the number fits into 64 bits.
    pub fn fits_u64(&self) -> (fits: bool)
        ensures
            fits == self.fits_u64_spec(),
            fits == (self.value() <= u64::MAX),
    {
        self.high == 0 && self.low <= u64::MAX as u128
    }

    /// The number as a `u64`.
    pub fn to_u64(&self) -> (value: u64)
        requires
            self.fits_u64_spec(),
        ensures
            value == self.value(),
    {
        self.low as u64
    }
}

/// When an asset input may be spent.
#[derive(Clone, Copy, Debug, PartialEq, Eq, Structural)]
pub enum Timelock {
    Block(u64),
    BlockAge(u64),
    Time(u64),
    TimeAge(u64),
}

/// The output of an earlier asset transaction, as transactions carry it.
#[derive(Clone, Copy, Debug, PartialEq, Eq, Structural)]
pub struct AssetOutPointType {
    pub tracker: Tracker,
    pub index: usize,
    pub asset_type: H160,
    pub shard_id: ShardId,
    pub quantity: u64,
}

/// The output of an earlier asset transaction, as the node's interface
/// presents it: the quantity is a 256-bit number.
#[derive(Clone, Copy, Debug, PartialEq, Eq, Structural)]
pub struct AssetOutPoint {
    pub tracker: Tracker,
    pub index: usize,
    pub asset_type: H160,
    pub shard_id: ShardId,
    pub quantity: Uint,
}

impl From<AssetOutPointType> for AssetOutPoint {
    fn from(from: AssetOutPointType) -> (point: AssetOutPoint) {
        AssetOutPoint {
            tracker: from.tracker,
            index: from.index,
            asset_type: from.asset_type,
            shard_id: from.shard_id,
            quantity: Uint::from_u64(from.quantity),
        }
    }
}

impl FromSpecImpl<AssetOutPointType> for AssetOutPoint {
    open spec fn obeys_from_spec() -> bool {
        true
    }

    open spec fn from_spec(from: AssetOutPointType) -> AssetOutPoint {
        AssetOutPoint::presented(from)
    }
}

impl AssetOutPoint {
    /// The out point `from` as the node's interface presents it.
    pub open spec fn presented(from: AssetOutPointType) -> AssetOutPoint {
        AssetOutPoint {
            tracker: from.tracker,
            index: from.index,
            asset_type: from.asset_type,
            shard_id: from.shard_id,
            quantity: Uint { high: 0, low: from.quantity as u128 },
        }
    }

    /// The out point in the form that transactions carry.
    pub open spec fn core_spec(self) -> AssetOutPointType {
        AssetOutPointType {
            tracker: self.tracker,
            index: self.index,
            asset_type: self.asset_type,
            shard_id: self.shard_id,
            quantity: self.quantity.low as u64,
        }
    }

    /// Converts the out point into the form that transactions carry. The
    /// quantity must fit into 64 bits.
    pub fn into_core(self) -> (point: AssetOutPointType)
        requires
            self.quantity.fits_u64_spec(),
        ensures
            point == self.core_spec(),
            point.quantity == self.quantity.value(),
    {
        AssetOutPointType {
            tracker: self.tracker,
            index: self.index,
            asset_type: self.asset_type,
            shard_id: self.shard_id,
            quantity: self.quantity.to_u64(),
        }
    }
}

/// An asset input, as transactions carry it.
#[derive(Debug, PartialEq)]
pub struct AssetTransferInputType {
    pub prev_out: AssetOutPointType,
    pub timelock: Option<Timelock>,
    pub lock_script: Vec<u8>,
    pub unlock_script: Vec<u8>,
}

/// An asset input, as the node's interface presents it.
#[derive(Debug, PartialEq)]
pub struct AssetTransferInput {
    pub prev_out: AssetOutPoint,
    pub timelock: Option<Timelock>,
    pub lock_script: Vec<u8>,
    pub unlock_script: Vec<u8>,
}

impl From<AssetTransferInputType> for AssetTransferInput {
    fn from(from: AssetTransferInputType) -> (input: AssetTransferInput) {
        AssetTransferInput {
            prev_out: AssetOutPoint::from(from.prev_out),
            timelock: from.timelock,
            lock_script: from.lock_script,
            unlock_script: from.unlock_script,
        }
    }
}

impl FromSpecImpl<AssetTransferInputType> for AssetTransferInput {
    open spec fn obeys_from_spec() -> bool {
        true
    }

    open spec fn from_spec(from: AssetTransferInputType) -> AssetTransferInput {
        AssetTransferInput::presented(from)
    }
}

impl AssetTransferInput {
    /// The input `from` as the node's interface presents it.
    pub open spec fn presented(from: AssetTransferInputType) -> AssetTransferInput {
        AssetTransferInput {
            prev_out: AssetOutPoint::presented(from.prev_out),
            timelock: from.timelock,
            lock_script: from.lock_script,
            unlock_script: from.unlock_script,
        }
    }

    /// Converts the input into the form that transactions carry. The
    /// quantity of its out point must fit into 64 bits.
    pub fn into_core(self) -> (input: AssetTransferInputType)
        requires
            self.prev_out.quantity.fits_u64_spec(),
        ensures
            input.prev_out == self.prev_out.core_spec(),
            input.timelock == self.timelock,
            input.lock_script == self.lock_script,
            input.unlock_script == self.unlock_script,
    {
        AssetTransferInputType {
            prev_out: self.prev_out.into_core(),
            timelock: self.timelock,
            lock_script: self.lock_script,
            unlock_script: self.unlock_script,
        }
    }
}

/// Conversion from the form that transactions carry and back gives the same
/// out point again.
pub proof fn lemma_out_point_round_trip(point: AssetOutPointType)
    ensures
        AssetOutPoint::presented(point).quantity.fits_u64_spec(),
        AssetOutPoint::presented(point).core_spec() == point,
{
}

} // verus!
