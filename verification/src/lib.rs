//! Detection of "partings" (local top/bottom fractals) in an ordered
//! candlestick series, following the Chan-theory ("Tanglism") morphology:
//! neighboring candles that stand in an inclusive relationship are merged
//! under the running trend direction, and merged triples are examined for
//! local extrema.

pub mod error;
pub mod shape;
pub mod parting;
pub mod laws;
