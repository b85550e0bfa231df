use miner_core::{
    AssetOutPoint, AssetOutPointType, AssetTransferInput, AssetTransferInputType, Timelock, Tracker, Uint, H160,
};

fn core_point(quantity: u64) -> AssetOutPointType {
    AssetOutPointType {
        tracker: Tracker { high: 1, low: 2 },
        index: 3,
        asset_type: H160 { head: 4, tail: 5 },
        shard_id: 6,
        quantity,
    }
}

#[test]
fn an_out_point_is_presented_with_a_wide_quantity() {
    let point = AssetOutPoint::from(core_point(u64::MAX));
    assert_eq!(point.tracker, Tracker { high: 1, low: 2 });
    assert_eq!(point.index, 3);
    assert_eq!(point.asset_type, H160 { head: 4, tail: 5 });
    assert_eq!(point.shard_id, 6);
    assert_eq!(point.quantity, Uint { high: 0, low: u64::MAX as u128 });
}

#[test]
fn an_out_point_converts_back_to_what_it_was() {
    for quantity in [0, 1, 77, u64::MAX] {
        let point = AssetOutPoint::from(core_point(quantity));
        assert!(point.quantity.fits_u64());
        assert_eq!(point.into_core(), core_point(quantity));
    }
}

#[test]
fn a_quantity_fits_into_64_bits_up_to_the_greatest_u64() {
    assert!(Uint::from_u64(0).fits_u64());
    assert_eq!(Uint::from_u64(9).to_u64(), 9);
    assert!(Uint { high: 0, low: u64::MAX as u128 }.fits_u64());
    assert_eq!(Uint { high: 0, low: u64::MAX as u128 }.to_u64(), u64::MAX);
    assert!(!Uint { high: 0, low: u64::MAX as u128 + 1 }.fits_u64());
    assert!(!Uint { high: 1, low: 0 }.fits_u64());
}

#[test]
fn a_transfer_input_converts_both_ways() {
    let core = AssetTransferInputType {
        prev_out: core_point(12),
        timelock: Some(Timelock::BlockAge(9)),
        lock_script: vec![1, 2],
        unlock_script: vec![3],
    };
    let input = AssetTransferInput::from(core);
    assert_eq!(input.prev_out, AssetOutPoint::from(core_point(12)));
    assert_eq!(input.timelock, Some(Timelock::BlockAge(9)));
    assert_eq!(input.lock_script, vec![1, 2]);
    assert_eq!(input.unlock_script, vec![3]);
    let back = input.into_core();
    assert_eq!(
        back,
        AssetTransferInputType {
            prev_out: core_point(12),
            timelock: Some(Timelock::BlockAge(9)),
            lock_script: vec![1, 2],
            unlock_script: vec![3],
        }
    );
}

#[test]
fn a_transfer_input_without_timelock_keeps_none() {
    let core = AssetTransferInputType { prev_out: core_point(0), timelock: None, lock_script: vec![], unlock_script: vec![] };
    let input = AssetTransferInput::from(core);
    assert_eq!(input.timelock, None);
    assert!(input.lock_script.is_empty());
}
