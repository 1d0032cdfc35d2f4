//! The features of a training row, in the order in which a model reads them.

use vstd::prelude::*;

use crate::binary64::Binary64;

verus! {

/// Features in a row.
pub const N_FEATURES: usize = 27;

/// The pattern of zero.
pub const ZERO_BITS: u64 = 0;

/// The pattern of one.
pub const ONE_BITS: u64 = 0x3FF0_0000_0000_0000;

/// The pattern of the floor under a volatility: a thousandth, as near as a
/// number of half the width comes to it.
pub const VOL_FLOOR_BITS: u64 = 0x3F50_624D_E000_0000;

/// The names of the features, in order.
pub open spec fn feature_name_list() -> Seq<Seq<char>> {
    seq![
        "return_5s"@,
        "return_30s"@,
        "return_300s"@,
        "vol_30s"@,
        "vol_300s"@,
        "vol_1800s"@,
        "vol_ratio"@,
        "ofi_5s"@,
        "ofi_30s"@,
        "ofi_300s"@,
        "ofi_delta_30s"@,
        "buy_ratio_30s"@,
        "buy_ratio_300s"@,
        "vwap_dev_30s"@,
        "vwap_dev_300s"@,
        "volume_ratio"@,
        "tick_velocity"@,
        "activity_regime"@,
        "spread_pct"@,
        "book_imb5"@,
        "book_imb_full"@,
        "book_spread_pct"@,
        "book_pressure"@,
        "trend_strength"@,
        "vol_regime"@,
        "zreturn_30s"@,
        "zreturn_300s"@,
    ]
}

/// The names of the features, in order.
pub fn feature_names() -> (names: Vec<&'static str>)
    ensures
        names@.map_values(|n: &'static str| n@) == feature_name_list(),
        names@.len() == N_FEATURES,
{
    let names: Vec<&'static str> = vec![
        "return_5s",
        "return_30s",
        "return_300s",
        "vol_30s",
        "vol_300s",
        "vol_1800s",
        "vol_ratio",
        "ofi_5s",
        "ofi_30s",
        "ofi_300s",
        "ofi_delta_30s",
        "buy_ratio_30s",
        "buy_ratio_300s",
        "vwap_dev_30s",
        "vwap_dev_300s",
        "volume_ratio",
        "tick_velocity",
        "activity_regime",
        "spread_pct",
        "book_imb5",
        "book_imb_full",
        "book_spread_pct",
        "book_pressure",
        "trend_strength",
        "vol_regime",
        "zreturn_30s",
        "zreturn_300s",
    ];
    assert(names@.map_values(|n: &'static str| n@) =~= feature_name_list());
    names
}

/// What is known of the market at a tick. Some of it is not known until enough
/// has been seen.
#[derive(Clone, Copy, Debug)]
pub struct FeatureVector {
    pub return_5s: Option<Binary64>,
    pub return_30s: Option<Binary64>,
    pub return_300s: Option<Binary64>,
    pub vol_30s: Option<Binary64>,
    pub vol_300s: Option<Binary64>,
    pub vol_1800s: Option<Binary64>,
    pub vol_ratio: Option<Binary64>,
    pub ofi_5s: Binary64,
    pub ofi_30s: Binary64,
    pub ofi_300s: Binary64,
    pub ofi_delta_30s: Binary64,
    pub buy_ratio_30s: Binary64,
    pub buy_ratio_300s: Binary64,
    pub vwap_dev_30s: Option<Binary64>,
    pub vwap_dev_300s: Option<Binary64>,
    pub volume_ratio: Option<Binary64>,
    /// Ticks per second, divided by twenty.
    pub tick_velocity: Binary64,
    pub activity_regime: Binary64,
    pub spread_pct: Binary64,
    pub book_imbalance_5: Option<Binary64>,
    pub book_imbalance_full: Option<Binary64>,
    pub book_spread_pct: Option<Binary64>,
    pub book_pressure: Option<Binary64>,
    pub trend_strength: Option<Binary64>,
    pub vol_regime: Option<Binary64>,
    pub zreturn_30s: Option<Binary64>,
    pub zreturn_300s: Option<Binary64>,
}

/// A value, or one of a given pattern where it is not known.
pub open spec fn known_or(value: Option<Binary64>, bits: u64) -> Binary64 {
    match value {
        Some(v) => v,
        None => Binary64 { bits },
    }
}

/// A value, or one of a given pattern where it is not known.
fn value_or(value: Option<Binary64>, bits: u64) -> (v: Binary64)
    ensures
        v == known_or(value, bits),
{
    match value {
        Some(v) => v,
        None => Binary64 { bits },
    }
}

/// The features in order. What is not known counts as nothing where it has a
/// sign or a trend, as the floor where it is a volatility, and as one where it
/// is a ratio.
pub open spec fn feature_seq(f: FeatureVector) -> Seq<Binary64> {
    seq![
        known_or(f.return_5s, ZERO_BITS),
        known_or(f.return_30s, ZERO_BITS),
        known_or(f.return_300s, ZERO_BITS),
        known_or(f.vol_30s, VOL_FLOOR_BITS),
        known_or(f.vol_300s, VOL_FLOOR_BITS),
        known_or(f.vol_1800s, VOL_FLOOR_BITS),
        known_or(f.vol_ratio, ONE_BITS),
        f.ofi_5s,
        f.ofi_30s,
        f.ofi_300s,
        f.ofi_delta_30s,
        f.buy_ratio_30s,
        f.buy_ratio_300s,
        known_or(f.vwap_dev_30s, ZERO_BITS),
        known_or(f.vwap_dev_300s, ZERO_BITS),
        known_or(f.volume_ratio, ONE_BITS),
        f.tick_velocity,
        f.activity_regime,
        f.spread_pct,
        known_or(f.book_imbalance_5, ZERO_BITS),
        known_or(f.book_imbalance_full, ZERO_BITS),
        known_or(f.book_spread_pct, ZERO_BITS),
        known_or(f.book_pressure, ZERO_BITS),
        known_or(f.trend_strength, ZERO_BITS),
        known_or(f.vol_regime, ONE_BITS),
        known_or(f.zreturn_30s, ZERO_BITS),
        known_or(f.zreturn_300s, ZERO_BITS),
    ]
}

/// Puts the features in order.
pub fn feature_array(f: &FeatureVector) -> (a: [Binary64; 27])
    ensures
        a@ == feature_seq(*f),
{
    let a: [Binary64; 27] = [
        value_or(f.return_5s, ZERO_BITS),
        value_or(f.return_30s, ZERO_BITS),
        value_or(f.return_300s, ZERO_BITS),
        value_or(f.vol_30s, VOL_FLOOR_BITS),
        value_or(f.vol_300s, VOL_FLOOR_BITS),
        value_or(f.vol_1800s, VOL_FLOOR_BITS),
        value_or(f.vol_ratio, ONE_BITS),
        f.ofi_5s,
        f.ofi_30s,
        f.ofi_300s,
        f.ofi_delta_30s,
        f.buy_ratio_30s,
        f.buy_ratio_300s,
        value_or(f.vwap_dev_30s, ZERO_BITS),
        value_or(f.vwap_dev_300s, ZERO_BITS),
        value_or(f.volume_ratio, ONE_BITS),
        f.tick_velocity,
        f.activity_regime,
        f.spread_pct,
        value_or(f.book_imbalance_5, ZERO_BITS),
        value_or(f.book_imbalance_full, ZERO_BITS),
        value_or(f.book_spread_pct, ZERO_BITS),
        value_or(f.book_pressure, ZERO_BITS),
        value_or(f.trend_strength, ZERO_BITS),
        value_or(f.vol_regime, ONE_BITS),
        value_or(f.zreturn_30s, ZERO_BITS),
        value_or(f.zreturn_300s, ZERO_BITS),
    ];
    assert(a@ =~= feature_seq(*f));
    a
}

/// Each value stands at the place of its name. What is known is taken as it is;
/// what is not known counts as zero where it is a return, a deviation, a state of
/// the book or a trend, as a thousandth where it is a volatility, and as one where
/// it is a ratio or a regime.
pub proof fn law_values_stand_under_their_names(f: FeatureVector)
    ensures
        ({
            let (names, a) = (feature_name_list(), feature_seq(f));
            let or = |value: Option<Binary64>, bits: u64|
                match value {
                    Some(v) => v,
                    None => Binary64 { bits },
                };
            &&& names.len() == 27
            &&& a.len() == 27
            &&& names[0] == "return_5s"@
            &&& a[0] == or(f.return_5s, 0)
            &&& names[1] == "return_30s"@
            &&& a[1] == or(f.return_30s, 0)
            &&& names[2] == "return_300s"@
            &&& a[2] == or(f.return_300s, 0)
            &&& names[3] == "vol_30s"@
            &&& a[3] == or(f.vol_30s, 0x3F50_624D_E000_0000)
            &&& names[4] == "vol_300s"@
            &&& a[4] == or(f.vol_300s, 0x3F50_624D_E000_0000)
            &&& names[5] == "vol_1800s"@
            &&& a[5] == or(f.vol_1800s, 0x3F50_624D_E000_0000)
            &&& names[6] == "vol_ratio"@
            &&& a[6] == or(f.vol_ratio, 0x3FF0_0000_0000_0000)
            &&& names[7] == "ofi_5s"@
            &&& a[7] == f.ofi_5s
            &&& names[8] == "ofi_30s"@
            &&& a[8] == f.ofi_30s
            &&& names[9] == "ofi_300s"@
            &&& a[9] == f.ofi_300s
            &&& names[10] == "ofi_delta_30s"@
            &&& a[10] == f.ofi_delta_30s
            &&& names[11] == "buy_ratio_30s"@
            &&& a[11] == f.buy_ratio_30s
            &&& names[12] == "buy_ratio_300s"@
            &&& a[12] == f.buy_ratio_300s
            &&& names[13] == "vwap_dev_30s"@
            &&& a[13] == or(f.vwap_dev_30s, 0)
            &&& names[14] == "vwap_dev_300s"@
            &&& a[14] == or(f.vwap_dev_300s, 0)
            &&& names[15] == "volume_ratio"@
            &&& a[15] == or(f.volume_ratio, 0x3FF0_0000_0000_0000)
            &&& names[16] == "tick_velocity"@
            &&& a[16] == f.tick_velocity
            &&& names[17] == "activity_regime"@
            &&& a[17] == f.activity_regime
            &&& names[18] == "spread_pct"@
            &&& a[18] == f.spread_pct
            &&& names[19] == "book_imb5"@
            &&& a[19] == or(f.book_imbalance_5, 0)
            &&& names[20] == "book_imb_full"@
            &&& a[20] == or(f.book_imbalance_full, 0)
            &&& names[21] == "book_spread_pct"@
            &&& a[21] == or(f.book_spread_pct, 0)
            &&& names[22] == "book_pressure"@
            &&& a[22] == or(f.book_pressure, 0)
            &&& names[23] == "trend_strength"@
            &&& a[23] == or(f.trend_strength, 0)
            &&& names[24] == "vol_regime"@
            &&& a[24] == or(f.vol_regime, 0x3FF0_0000_0000_0000)
            &&& names[25] == "zreturn_30s"@
            &&& a[25] == or(f.zreturn_30s, 0)
            &&& names[26] == "zreturn_300s"@
            &&& a[26] == or(f.zreturn_300s, 0)
        }),
{
}

} // verus!
