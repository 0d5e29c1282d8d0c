use tulip_rs_ffi::candlestick::{
    pack_candlestick_output, parse_forecast, CCandleStickBatchResult, CCandleStickResult,
    CForecastType, PatternRecord, PatternTable,
};
use tulip_rs_ffi::common::CIndicatorError;
use tulip_rs_ffi::lex::lex_le_bytes;

fn record(key: u32, name: &str, forecast: CForecastType, bars: u32) -> PatternRecord {
    PatternRecord {
        key,
        name: name.as_bytes().to_vec(),
        full_name: format!("{} pattern", name).into_bytes(),
        japanese_name: Vec::new(),
        forecast,
        bars,
    }
}

/// A small registry in registry order (grouped by bar count, not by name).
fn registry() -> Vec<PatternRecord> {
    vec![
        record(10, "Hammer", CForecastType::BullishReversal, 1),
        record(11, "Doji", CForecastType::BearishReversalOrContinuation, 1),
        record(20, "Engulfing", CForecastType::BearishReversal, 2),
        record(21, "Doji", CForecastType::BullishReversalOrContinuation, 2),
        record(30, "ThreeBlackCrows", CForecastType::BearishReversal, 3),
        record(31, "AdvanceBlock", CForecastType::BearishReversal, 3),
    ]
}

#[test]
fn forecast_filter_parsing() {
    assert_eq!(parse_forecast(0), Some(CForecastType::BearishReversal));
    assert_eq!(parse_forecast(1), Some(CForecastType::BullishReversal));
    assert_eq!(parse_forecast(2), Some(CForecastType::BearishContinuation));
    assert_eq!(parse_forecast(3), Some(CForecastType::BullishContinuation));
    assert_eq!(parse_forecast(4), Some(CForecastType::BearishReversalOrContinuation));
    assert_eq!(parse_forecast(5), Some(CForecastType::BullishReversalOrContinuation));
    assert_eq!(parse_forecast(-1), None);
    assert_eq!(parse_forecast(6), None);
    assert_eq!(parse_forecast(i32::MIN), None);
    for f in [
        CForecastType::BearishReversal,
        CForecastType::BullishReversal,
        CForecastType::BearishContinuation,
        CForecastType::BullishContinuation,
        CForecastType::BearishReversalOrContinuation,
        CForecastType::BullishReversalOrContinuation,
    ] {
        assert_eq!(parse_forecast(f.code()), Some(f));
    }
}

#[test]
fn lexicographic_byte_order() {
    let v = |s: &str| s.as_bytes().to_vec();
    assert!(lex_le_bytes(&v("Doji"), &v("Hammer")));
    assert!(!lex_le_bytes(&v("Hammer"), &v("Doji")));
    assert!(lex_le_bytes(&v("Doji"), &v("Doji")));
    assert!(lex_le_bytes(&v("Do"), &v("Doji")));
    assert!(!lex_le_bytes(&v("Doji"), &v("Do")));
    assert!(lex_le_bytes(&v(""), &v("")));
    assert!(lex_le_bytes(&v("Z"), &v("a")));
}

#[test]
fn table_sorted_by_name_ties_in_registry_order() {
    let t = PatternTable::new(registry());
    assert_eq!(t.num_patterns(), 6);
    let names: Vec<String> = (0..6u32)
        .map(|id| String::from_utf8(t.pattern_info(id).unwrap().name.clone()).unwrap())
        .collect();
    assert_eq!(
        names,
        vec!["AdvanceBlock", "Doji", "Doji", "Engulfing", "Hammer", "ThreeBlackCrows"]
    );
    // the two Doji keep registry order: key 11 before key 21
    assert_eq!(t.pattern_info(1).unwrap().key, 11);
    assert_eq!(t.pattern_info(2).unwrap().key, 21);
    // every pattern's id finds it again
    for id in 0..6u32 {
        let key = t.pattern_info(id).unwrap().key;
        assert_eq!(t.pattern_id(key), id);
    }
}

#[test]
fn table_lookups_out_of_range() {
    let t = PatternTable::new(registry());
    assert!(t.pattern_info(6).is_none());
    assert!(t.pattern_info(u32::MAX).is_none());
    assert_eq!(t.pattern_id(99), u32::MAX);
    let empty = PatternTable::new(Vec::new());
    assert_eq!(empty.num_patterns(), 0);
    assert!(empty.pattern_info(0).is_none());
    assert_eq!(empty.pattern_id(10), u32::MAX);
}

#[test]
fn table_keeps_metadata() {
    let t = PatternTable::new(registry());
    let info = t.pattern_info(5).unwrap();
    assert_eq!(info.key, 30);
    assert_eq!(info.bars, 3);
    assert_eq!(info.forecast, CForecastType::BearishReversal);
    assert_eq!(info.full_name, b"ThreeBlackCrows pattern".to_vec());
}

#[test]
fn csr_layout_of_detections() {
    let t = PatternTable::new(registry());
    // bar 0: none, bar 1: Hammer + ThreeBlackCrows, bar 2: empty list, bar 3: AdvanceBlock
    let output = vec![None, Some(vec![10, 30]), Some(vec![]), Some(vec![31])];
    let r = pack_candlestick_output(&t, &output);
    assert_eq!(r.num_bars, 4);
    assert_eq!(r.total_patterns, 3);
    assert_eq!(r.bar_offsets, vec![0, 0, 2, 2, 3]);
    assert_eq!(r.pattern_ids, vec![4, 5, 0]);
}

#[test]
fn csr_layout_of_no_bars() {
    let t = PatternTable::new(registry());
    let r = pack_candlestick_output(&t, &Vec::new());
    assert_eq!(r.num_bars, 0);
    assert_eq!(r.total_patterns, 0);
    assert_eq!(r.bar_offsets, vec![0]);
    assert!(r.pattern_ids.is_empty());
}

#[test]
fn csr_layout_of_unknown_key() {
    let t = PatternTable::new(registry());
    let r = pack_candlestick_output(&t, &vec![Some(vec![77])]);
    assert_eq!(r.pattern_ids, vec![u32::MAX]);
    assert_eq!(r.bar_offsets, vec![0, 1]);
}

#[test]
fn candlestick_results() {
    let t = PatternTable::new(registry());
    let ok: Result<(Vec<Option<Vec<u32>>>, &str), CIndicatorError> =
        Ok((vec![Some(vec![11]), None], "state"));
    let r = CCandleStickResult::from_outcome(&t, ok);
    assert_eq!(r.error, CIndicatorError::NoError);
    assert_eq!(r.state, Some("state"));
    assert_eq!(r.rows.bar_offsets, vec![0, 1, 1]);
    assert_eq!(r.rows.pattern_ids, vec![1]);

    let bad: Result<(Vec<Option<Vec<u32>>>, &str), CIndicatorError> =
        Err(CIndicatorError::NotEnoughData);
    let r = CCandleStickResult::from_outcome(&t, bad);
    assert_eq!(r.error, CIndicatorError::NotEnoughData);
    assert!(r.state.is_none());
    assert!(r.rows.bar_offsets.is_empty());

    let b = CCandleStickBatchResult::from_outcome(&t, Ok(vec![Some(vec![21, 20])]));
    assert_eq!(b.error, CIndicatorError::NoError);
    assert_eq!(b.num_bars, 1);
    assert_eq!(b.pattern_ids, vec![2, 3]);

    let m = CCandleStickBatchResult::missing_state();
    assert_eq!(m.error, CIndicatorError::InvalidIndicatorState);
    assert_eq!(m.num_bars, 0);
    assert!(m.bar_offsets.is_empty());
}

#[test]
fn table_ids_are_the_same_for_every_build() {
    let a = PatternTable::new(registry());
    let b = PatternTable::new(registry());
    assert_eq!(a.order, b.order);
    assert_eq!(a.order, vec![5, 1, 3, 2, 0, 4]);
}
