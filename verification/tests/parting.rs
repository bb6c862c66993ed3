//! Tests of the parting shaper over concrete candle series.
//!
//! Timestamps are written as wall-clock strings and converted to the
//! library's plain epoch-second timestamps; prices are written in hundredths
//! (two decimal places), the library's fixed-point price unit here.

use chrono::NaiveDateTime;
use tanglism_morph::error::Error;
use tanglism_morph::parting::{ks_to_pts, PartingConfig, PartingShaper};
use tanglism_morph::shape::K;

fn new_ts(s: &str) -> i64 {
    NaiveDateTime::parse_from_str(s, "%Y-%m-%d %H:%M")
        .unwrap()
        .and_utc()
        .timestamp()
}

fn new_k(ts: &str, high: i64, low: i64) -> K {
    K { ts: new_ts(ts), high, low }
}

#[test]
fn test_shaper_no_parting() -> Result<(), Error> {
    let ks = vec![
        new_k("2020-02-01 10:00", 1010, 1000),
        new_k("2020-02-01 10:01", 1015, 1005),
        new_k("2020-02-01 10:02", 1020, 1010),
        new_k("2020-02-01 10:03", 1025, 1015),
        new_k("2020-02-01 10:04", 1030, 1020),
    ];
    let r = ks_to_pts(&ks)?;
    assert_eq!(0, r.len());
    Ok(())
}

#[test]
fn test_shaper_one_parting() -> Result<(), Error> {
    let ks = vec![
        new_k("2020-02-01 10:00", 1010, 1000),
        new_k("2020-02-01 10:01", 1015, 1005),
        new_k("2020-02-01 10:02", 1020, 1010),
        new_k("2020-02-01 10:03", 1015, 1005),
        new_k("2020-02-01 10:04", 1010, 1000),
    ];
    let r = ks_to_pts(&ks)?;
    assert_eq!(1, r.len());
    assert_eq!(new_ts("2020-02-01 10:01"), r[0].start_ts);
    assert_eq!(new_ts("2020-02-01 10:03"), r[0].end_ts);
    assert_eq!(new_ts("2020-02-01 10:02"), r[0].extremum_ts);
    assert_eq!(1020, r[0].extremum_price);
    assert_eq!(true, r[0].top);
    Ok(())
}

#[test]
fn test_shaper_one_parting_inclusive() -> Result<(), Error> {
    let ks = vec![
        new_k("2020-02-01 10:00", 1010, 1000),
        new_k("2020-02-01 10:01", 1015, 1005),
        new_k("2020-02-01 10:02", 1020, 1010),
        new_k("2020-02-01 10:03", 1015, 1005),
        new_k("2020-02-01 10:04", 1020, 1000),
    ];
    let r = ks_to_pts(&ks)?;
    assert_eq!(1, r.len());
    assert_eq!(new_ts("2020-02-01 10:04"), r[0].end_ts);
    Ok(())
}

#[test]
fn test_shaper_two_partings() -> Result<(), Error> {
    let ks = vec![
        new_k("2020-02-01 10:00", 1010, 1000),
        new_k("2020-02-01 10:01", 1015, 1005),
        new_k("2020-02-01 10:02", 1020, 1010),
        new_k("2020-02-01 10:03", 1015, 1005),
        new_k("2020-02-01 10:04", 1020, 1010),
    ];
    let r = ks_to_pts(&ks)?;
    assert_eq!(2, r.len());
    assert_eq!(new_ts("2020-02-01 10:01"), r[0].start_ts);
    assert_eq!(new_ts("2020-02-01 10:03"), r[0].end_ts);
    assert_eq!(true, r[0].top);
    assert_eq!(new_ts("2020-02-01 10:02"), r[1].start_ts);
    assert_eq!(new_ts("2020-02-01 10:04"), r[1].end_ts);
    assert_eq!(false, r[1].top);
    Ok(())
}

#[test]
fn test_shaper_two_indep_partings() -> Result<(), Error> {
    let ks = vec![
        new_k("2020-02-01 10:00", 1010, 1000),
        new_k("2020-02-01 10:01", 1015, 1005),
        new_k("2020-02-01 10:02", 1020, 1010),
        new_k("2020-02-01 10:03", 1015, 1005),
        new_k("2020-02-01 10:04", 1010, 1000),
        new_k("2020-02-01 10:05", 1005, 995),
        new_k("2020-02-01 10:06", 1000, 990),
        new_k("2020-02-01 10:07", 1005, 995),
    ];
    let r = ks_to_pts(&ks)?;
    assert_eq!(2, r.len());
    assert_eq!(new_ts("2020-02-01 10:01"), r[0].start_ts);
    assert_eq!(new_ts("2020-02-01 10:03"), r[0].end_ts);
    assert_eq!(new_ts("2020-02-01 10:05"), r[1].start_ts);
    assert_eq!(new_ts("2020-02-01 10:07"), r[1].end_ts);
    Ok(())
}

// A strictly falling series contains no reversal either.
#[test]
fn test_shaper_falling_no_parting() -> Result<(), Error> {
    let ks = vec![
        new_k("2020-02-01 10:00", 1030, 1020),
        new_k("2020-02-01 10:01", 1025, 1015),
        new_k("2020-02-01 10:02", 1020, 1010),
        new_k("2020-02-01 10:03", 1015, 1005),
        new_k("2020-02-01 10:04", 1010, 1000),
    ];
    let r = ks_to_pts(&ks)?;
    assert_eq!(0, r.len());
    Ok(())
}

// A series ending exactly at the third candle of a forming fractal still
// emits that parting through the end-of-stream flush.
#[test]
fn test_shaper_flush_at_third_candle() -> Result<(), Error> {
    let ks = vec![
        new_k("2020-02-01 10:00", 1010, 1000),
        new_k("2020-02-01 10:01", 1015, 1005),
        new_k("2020-02-01 10:02", 1010, 1000),
    ];
    let r = ks_to_pts(&ks)?;
    assert_eq!(1, r.len());
    assert_eq!(new_ts("2020-02-01 10:00"), r[0].start_ts);
    assert_eq!(new_ts("2020-02-01 10:02"), r[0].end_ts);
    assert_eq!(new_ts("2020-02-01 10:01"), r[0].extremum_ts);
    assert_eq!(1015, r[0].extremum_price);
    assert_eq!(3, r[0].n);
    assert_eq!(true, r[0].top);
    Ok(())
}

// A falling-then-rising series yields a bottom parting whose extremum price
// is the middle candle's low.
#[test]
fn test_shaper_bottom_parting() -> Result<(), Error> {
    let ks = vec![
        new_k("2020-02-01 10:00", 1020, 1010),
        new_k("2020-02-01 10:01", 1015, 1005),
        new_k("2020-02-01 10:02", 1010, 1000),
        new_k("2020-02-01 10:03", 1015, 1005),
        new_k("2020-02-01 10:04", 1020, 1010),
    ];
    let r = ks_to_pts(&ks)?;
    assert_eq!(1, r.len());
    assert_eq!(new_ts("2020-02-01 10:01"), r[0].start_ts);
    assert_eq!(new_ts("2020-02-01 10:03"), r[0].end_ts);
    assert_eq!(new_ts("2020-02-01 10:02"), r[0].extremum_ts);
    assert_eq!(1000, r[0].extremum_price);
    assert_eq!(3, r[0].n);
    assert_eq!(false, r[0].top);
    Ok(())
}

// Inserting a candle whose range is contained in the current window candle
// changes neither the number of partings nor their boundary timestamps; only
// the affected count grows.
#[test]
fn test_shaper_dominated_candle_absorbed() -> Result<(), Error> {
    let base = vec![
        new_k("2020-02-01 10:00", 1010, 1000),
        new_k("2020-02-01 10:01", 1015, 1005),
        new_k("2020-02-01 10:02", 1020, 1010),
        new_k("2020-02-01 10:03", 1015, 1005),
        new_k("2020-02-01 10:04", 1010, 1000),
    ];
    // The same series with one extra candle thirty seconds after 10:02,
    // fully inside the 10:02 candle's range.
    let mut with_insert = base.clone();
    let dominated = K { ts: new_ts("2020-02-01 10:02") + 30, high: 1018, low: 1012 };
    with_insert.insert(3, dominated);

    let r1 = ks_to_pts(&base)?;
    let r2 = ks_to_pts(&with_insert)?;
    assert_eq!(r1.len(), r2.len());
    assert_eq!(r1[0].start_ts, r2[0].start_ts);
    assert_eq!(r1[0].end_ts, r2[0].end_ts);
    assert_eq!(r1[0].extremum_ts, r2[0].extremum_ts);
    assert_eq!(r1[0].extremum_price, r2[0].extremum_price);
    assert_eq!(r1[0].top, r2[0].top);
    assert_eq!(r1[0].n + 1, r2[0].n);
    Ok(())
}

// A dominated candle that shares the window candle's trend-side bound (its
// low, under an upward trend) leaves every parting field unchanged except
// the count of the merged candle it joined.
#[test]
fn test_shaper_dominated_same_low_absorbed() -> Result<(), Error> {
    let base = vec![
        new_k("2020-02-01 10:00", 1010, 1000),
        new_k("2020-02-01 10:01", 1015, 1005),
        new_k("2020-02-01 10:02", 1020, 1010),
        new_k("2020-02-01 10:03", 1015, 1005),
        new_k("2020-02-01 10:04", 1010, 1000),
    ];
    let mut with_insert = base.clone();
    let dominated = K { ts: new_ts("2020-02-01 10:02") + 30, high: 1018, low: 1010 };
    with_insert.insert(3, dominated);

    let r1 = ks_to_pts(&base)?;
    let r2 = ks_to_pts(&with_insert)?;
    assert_eq!(1, r1.len());
    assert_eq!(1, r2.len());
    assert_eq!(r1[0].start_ts, r2[0].start_ts);
    assert_eq!(r1[0].end_ts, r2[0].end_ts);
    assert_eq!(r1[0].extremum_ts, r2[0].extremum_ts);
    assert_eq!(r1[0].extremum_price, r2[0].extremum_price);
    assert_eq!(r1[0].top, r2[0].top);
    assert_eq!(r1[0].n + 1, r2[0].n);
    Ok(())
}

// The two partings of two independent reversals alternate in polarity.
#[test]
fn test_shaper_two_indep_partings_polarity() -> Result<(), Error> {
    let ks = vec![
        new_k("2020-02-01 10:00", 1010, 1000),
        new_k("2020-02-01 10:01", 1015, 1005),
        new_k("2020-02-01 10:02", 1020, 1010),
        new_k("2020-02-01 10:03", 1015, 1005),
        new_k("2020-02-01 10:04", 1010, 1000),
        new_k("2020-02-01 10:05", 1005, 995),
        new_k("2020-02-01 10:06", 1000, 990),
        new_k("2020-02-01 10:07", 1005, 995),
    ];
    let r = ks_to_pts(&ks)?;
    assert_eq!(2, r.len());
    assert_eq!(true, r[0].top);
    assert_eq!(new_ts("2020-02-01 10:02"), r[0].extremum_ts);
    assert_eq!(1020, r[0].extremum_price);
    assert_eq!(false, r[1].top);
    assert_eq!(new_ts("2020-02-01 10:06"), r[1].extremum_ts);
    assert_eq!(990, r[1].extremum_price);
    assert!(r[0].end_ts <= r[1].start_ts);
    Ok(())
}

// The shaper can be driven directly through its own constructor.
#[test]
fn test_shaper_new_and_run() {
    let ks = vec![
        new_k("2020-02-01 10:00", 1010, 1000),
        new_k("2020-02-01 10:01", 1015, 1005),
        new_k("2020-02-01 10:02", 1020, 1010),
        new_k("2020-02-01 10:03", 1015, 1005),
        new_k("2020-02-01 10:04", 1010, 1000),
    ];
    let shaper = PartingShaper::new(&ks, PartingConfig::default());
    let r = shaper.run().unwrap();
    assert_eq!(1, r.len());
    assert_eq!(1020, r[0].extremum_price);
}

#[test]
fn test_error_message() {
    let e = Error(String::from("no data for the requested range"));
    assert_eq!("no data for the requested range", e.message().as_str());
}

#[test]
fn test_config_default() {
    let cfg = PartingConfig::default();
    assert_eq!(false, cfg.inclusive_k);
}
