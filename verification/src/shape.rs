//! Value types of the candle series: raw candles, merged candles and the
//! detected partings.
//!
//! Timestamps are plain `i64` values (e.g. seconds since the epoch); the
//! caller guarantees that they increase strictly along the input series.
//! Prices are exact decimals held as `i64` fixed-point values (an integer
//! count of the smallest price unit), so every comparison below is an exact
//! decimal comparison.

use vstd::prelude::*;

verus! {

/// One raw candlestick observation: its timestamp and the high/low bounds of
/// its price range. `high >= low` is assumed, not validated.
#[derive(Debug, Clone, Copy, PartialEq, Eq, Structural)]
pub struct K {
    pub ts: i64,
    pub high: i64,
    pub low: i64,
}

/// The accumulated result of merging one or more consecutive candles that
/// stood in an inclusive relationship.
///
/// `start_ts`/`end_ts` span the constituents, `extremum_ts` is the timestamp
/// of the constituent whose bounds became the merged `high`/`low`, and `n`
/// counts the raw candles merged in (at least 1).
#[derive(Debug, Clone, Copy, PartialEq, Eq, Structural)]
pub struct CK {
    pub start_ts: i64,
    pub end_ts: i64,
    pub extremum_ts: i64,
    pub high: i64,
    pub low: i64,
    pub n: usize,
}

/// A detected parting (fractal).
///
/// `start_ts`/`end_ts` span the three merged candles that produced it,
/// `extremum_ts` and `extremum_price` locate the defining extremum of the
/// middle merged candle, `n` sums the three constituents' candle counts, and
/// `top` tells a local maximum (top fractal) from a local minimum.
#[derive(Debug, Clone, Copy, PartialEq, Eq, Structural)]
pub struct Parting {
    pub start_ts: i64,
    pub end_ts: i64,
    pub extremum_ts: i64,
    pub extremum_price: i64,
    pub n: usize,
    pub top: bool,
}

} // verus!
