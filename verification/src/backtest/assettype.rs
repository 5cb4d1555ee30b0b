//! Asset types: how the traded amount follows from price and quantity.

use vstd::prelude::*;

verus! {

/// An asset type turns an execution price and quantity into the amount that
/// moves the balance.
pub trait AssetType {
    /// The amount of a fill of `qty` lots at `exec_price_tick`.
    spec fn spec_amount(&self, exec_price_tick: i32, qty: u32) -> i64;

    /// The amount of a fill of `qty` lots at `exec_price_tick`.
    fn amount(&self, exec_price_tick: i32, qty: u32) -> (a: i64)
        ensures
            a == self.spec_amount(exec_price_tick, qty),
    ;
}

/// A linear asset: the amount is price times quantity, in ticks times lots.
pub struct LinearAsset {}

impl LinearAsset {
    /// The linear asset.
    pub fn new() -> Self {
        LinearAsset {  }
    }
}

impl AssetType for LinearAsset {
    open spec fn spec_amount(&self, exec_price_tick: i32, qty: u32) -> i64 {
        (exec_price_tick * qty) as i64
    }

    fn amount(&self, exec_price_tick: i32, qty: u32) -> (a: i64) {
        assert(-0x8000_0000_0000_0000 <= exec_price_tick * qty <= 0x7fff_ffff_ffff_ffff)
            by (nonlinear_arith)
            requires
                -0x8000_0000 <= exec_price_tick <= 0x7fff_ffff,
                0 <= qty <= 0xffff_ffff,
        ;
        exec_price_tick as i64 * qty as i64
    }
}

/// An inverse asset: the amount is quantity over price, scaled by
/// `contract_size`, rounded towards zero and held at `i64::MAX`. A price
/// that is not positive gives no amount.
pub struct InverseAsset {
    pub contract_size: u32,
}

impl InverseAsset {
    /// The inverse asset with the given contract size.
    pub fn new(contract_size: u32) -> (a: Self)
        ensures
            a.contract_size == contract_size,
    {
        InverseAsset { contract_size }
    }
}

impl AssetType for InverseAsset {
    open spec fn spec_amount(&self, exec_price_tick: i32, qty: u32) -> i64 {
        if exec_price_tick > 0 {
            let quotient = (self.contract_size * qty) / (exec_price_tick as int);
            if quotient > i64::MAX {
                i64::MAX
            } else {
                quotient as i64
            }
        } else {
            0
        }
    }

    fn amount(&self, exec_price_tick: i32, qty: u32) -> (a: i64) {
        if exec_price_tick > 0 {
            assert(0 <= self.contract_size * qty <= 0xffff_fffe_0000_0001) by (nonlinear_arith)
                requires
                    0 <= self.contract_size <= 0xffff_ffff,
                    0 <= qty <= 0xffff_ffff,
            ;
            let scaled: u64 = self.contract_size as u64 * qty as u64;
            let r: u64 = scaled / exec_price_tick as u64;
            assert(r <= scaled) by (nonlinear_arith)
                requires
                    r == scaled / (exec_price_tick as u64),
                    exec_price_tick >= 1,
            ;
            if r > 0x7fff_ffff_ffff_ffff {
                // Only a price of one tick lets the quotient stay this large.
                0x7fff_ffff_ffff_ffff
            } else {
                r as i64
            }
        } else {
            0
        }
    }
}

/// A quanto asset: the amount is price times quantity times a constant
/// multiplier, held within the range of `i64`.
pub struct QuantoAsset {
    pub multiplier: u32,
}

impl QuantoAsset {
    /// The quanto asset with the given multiplier.
    pub fn new(multiplier: u32) -> (a: Self)
        ensures
            a.multiplier == multiplier,
    {
        QuantoAsset { multiplier }
    }
}

impl AssetType for QuantoAsset {
    open spec fn spec_amount(&self, exec_price_tick: i32, qty: u32) -> i64 {
        let amount = self.multiplier * (exec_price_tick * qty);
        if amount > i64::MAX {
            i64::MAX
        } else if amount < i64::MIN {
            i64::MIN
        } else {
            amount as i64
        }
    }

    fn amount(&self, exec_price_tick: i32, qty: u32) -> (a: i64) {
        assert(-0x8000_0000_0000_0000 <= exec_price_tick * qty <= 0x7fff_ffff_ffff_ffff)
            by (nonlinear_arith)
            requires
                -0x8000_0000 <= exec_price_tick <= 0x7fff_ffff,
                0 <= qty <= 0xffff_ffff,
        ;
        let plain: i128 = exec_price_tick as i128 * qty as i128;
        assert(-0x8000_0000_0000_0000 * 0xffff_ffff <= self.multiplier * plain
            <= 0x7fff_ffff_ffff_ffff * 0xffff_ffff) by (nonlinear_arith)
            requires
                -0x8000_0000_0000_0000 <= plain <= 0x7fff_ffff_ffff_ffff,
                0 <= self.multiplier <= 0xffff_ffff,
        ;
        let amount: i128 = self.multiplier as i128 * plain;
        if amount > i64::MAX as i128 {
            i64::MAX
        } else if amount < i64::MIN as i128 {
            i64::MIN
        } else {
            amount as i64
        }
    }
}

} // verus!
