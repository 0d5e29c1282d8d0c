use tulip_rs_ffi::common::{
    optional_outputs_slice, pack_outputs, pack_simd_outputs, simd_lanes, CBatchResult,
    CDisplayType, CIndicatorError, CIndicatorResult, CIndicatorType, CSimdResult, SimdLanes,
};

#[test]
fn indicator_type_codes() {
    let all = [
        CIndicatorType::Trend,
        CIndicatorType::Momentum,
        CIndicatorType::Volume,
        CIndicatorType::Volatility,
        CIndicatorType::Price,
        CIndicatorType::Cycle,
        CIndicatorType::CandleStick,
        CIndicatorType::Math,
        CIndicatorType::Other,
    ];
    for (i, t) in all.iter().enumerate() {
        assert_eq!(t.code(), i as i32);
    }
}

#[test]
fn display_type_codes() {
    assert_eq!(CDisplayType::Overlay.code(), 0);
    assert_eq!(CDisplayType::Indicator.code(), 1);
    assert_eq!(CDisplayType::Volume.code(), 2);
    assert_eq!(CDisplayType::Price.code(), 3);
}

#[test]
fn error_codes() {
    assert_eq!(CIndicatorError::NoError.code(), 0);
    assert_eq!(CIndicatorError::InvalidInputs.code(), 1);
    assert_eq!(CIndicatorError::NotEnoughData.code(), 2);
    assert_eq!(CIndicatorError::InvalidOptions.code(), 3);
    assert_eq!(CIndicatorError::InvalidIndicatorState.code(), 4);
}

#[test]
fn optional_mask_absent_or_empty_means_none() {
    assert!(optional_outputs_slice(None).is_none());
    let empty: [bool; 0] = [];
    assert!(optional_outputs_slice(Some(&empty[..])).is_none());
    let mask = [true, false];
    assert_eq!(optional_outputs_slice(Some(&mask[..])), Some(&mask[..]));
}

#[test]
fn pack_outputs_without_request_keeps_only_mandatory_rows() {
    // two mandatory outputs, two optional ones left empty by the core
    let rows = vec![vec![1.0, 2.0, 3.0], vec![4.0], vec![], vec![]];
    let p = pack_outputs(rows, 2, None);
    assert_eq!(p.num_outputs, 2);
    assert_eq!(p.outputs, vec![vec![1.0, 2.0, 3.0], vec![4.0]]);
    assert_eq!(p.output_lens, vec![3, 1]);
}

#[test]
fn pack_outputs_keeps_an_empty_mandatory_row() {
    // the only mandatory output is empty (a short continuation)
    let rows: Vec<Vec<f64>> = vec![vec![], vec![5.0]];
    let p = pack_outputs(rows, 1, None);
    assert_eq!(p.num_outputs, 1);
    assert_eq!(p.output_lens, vec![0]);
    let mask = [true];
    let p = pack_outputs(vec![vec![], vec![5.0]], 1, Some(&mask[..]));
    assert_eq!(p.num_outputs, 2);
    assert_eq!(p.output_lens, vec![0, 1]);
}

#[test]
fn pack_outputs_hands_over_requested_optional_rows() {
    let rows = vec![vec![1.0, 2.0], vec![7.0], vec![], vec![9.0, 9.5]];
    let mask = [false, false, true];
    let p = pack_outputs(rows.clone(), 1, Some(&mask[..]));
    assert_eq!(p.num_outputs, 2);
    assert_eq!(p.outputs, vec![vec![1.0, 2.0], vec![9.0, 9.5]]);
    assert_eq!(p.output_lens, vec![2, 2]);

    let mask = [true, true, true];
    let p = pack_outputs(rows.clone(), 1, Some(&mask[..]));
    assert_eq!(p.num_outputs, 4);
    assert_eq!(p.outputs, rows);
    assert_eq!(p.output_lens, vec![2, 1, 0, 2]);

    // a mask shorter than the optional outputs asks for none past its end
    let mask = [true];
    let p = pack_outputs(rows, 1, Some(&mask[..]));
    assert_eq!(p.output_lens, vec![2, 1]);
}

#[test]
fn pack_outputs_of_nothing() {
    let p = pack_outputs(Vec::<Vec<f64>>::new(), 1, None);
    assert_eq!(p.num_outputs, 0);
    assert!(p.outputs.is_empty());
    assert!(p.output_lens.is_empty());
}

#[test]
fn pack_simd_outputs_packs_every_lane() {
    let results = vec![
        vec![vec![1.0, 2.0], vec![]],
        vec![vec![3.0, 4.0, 5.0], vec![]],
    ];
    let p = pack_simd_outputs(results, 1, None);
    assert_eq!(p.num_results, 2);
    assert_eq!(p.num_outputs, 1);
    assert_eq!(p.results[0].outputs, vec![vec![1.0, 2.0]]);
    assert_eq!(p.results[1].output_lens, vec![3]);

    // one mandatory output, the first of two optional outputs requested
    let mask = [true, false];
    let results = vec![vec![vec![1.0], vec![2.0], vec![]], vec![vec![3.0], vec![4.0], vec![]]];
    let p = pack_simd_outputs(results, 1, Some(&mask[..]));
    assert_eq!(p.num_outputs, 2);
    assert_eq!(p.results[1].outputs, vec![vec![3.0], vec![4.0]]);

    let p = pack_simd_outputs(Vec::<Vec<Vec<f64>>>::new(), 1, None);
    assert_eq!(p.num_outputs, 0);
    assert_eq!(p.num_results, 0);
}

#[test]
fn simd_lane_counts() {
    assert_eq!(simd_lanes(2), Ok(SimdLanes::Two));
    assert_eq!(simd_lanes(4), Ok(SimdLanes::Four));
    assert_eq!(simd_lanes(8), Ok(SimdLanes::Eight));
    assert_eq!(simd_lanes(16), Ok(SimdLanes::Sixteen));
    for n in [0usize, 1, 3, 5, 7, 12, 15, 17, 32] {
        assert_eq!(simd_lanes(n), Err(CIndicatorError::InvalidInputs));
    }
    for l in [SimdLanes::Two, SimdLanes::Four, SimdLanes::Eight, SimdLanes::Sixteen] {
        assert_eq!(simd_lanes(l.count()), Ok(l));
    }
}

#[test]
fn indicator_result_success_carries_state() {
    let outcome: Result<(Vec<Vec<f64>>, u32), CIndicatorError> =
        Ok((vec![vec![1.0, 2.0], vec![]], 7));
    let r = CIndicatorResult::from_outcome(outcome, 1, None);
    assert_eq!(r.error, CIndicatorError::NoError);
    assert_eq!(r.num_outputs, 1);
    assert_eq!(r.output_lens, vec![2]);
    assert_eq!(r.state, Some(7));
}

#[test]
fn indicator_result_error_carries_nothing() {
    let outcome: Result<(Vec<Vec<f64>>, u32), CIndicatorError> =
        Err(CIndicatorError::NotEnoughData);
    let r = CIndicatorResult::from_outcome(outcome, 1, None);
    assert_eq!(r.error, CIndicatorError::NotEnoughData);
    assert_eq!(r.num_outputs, 0);
    assert!(r.outputs.is_empty());
    assert!(r.output_lens.is_empty());
    assert!(r.state.is_none());

    let e: CIndicatorResult<f64, u32> = CIndicatorResult::err(CIndicatorError::InvalidOptions);
    assert_eq!(e.error, CIndicatorError::InvalidOptions);
    assert!(e.state.is_none());
}

#[test]
fn batch_result_shapes() {
    let mask = [true];
    let r = CBatchResult::from_outcome(Ok(vec![vec![1.0], vec![]]), 1, Some(&mask[..]));
    assert_eq!(r.error, CIndicatorError::NoError);
    assert_eq!(r.num_outputs, 2);
    assert_eq!(r.output_lens, vec![1, 0]);

    let r: CBatchResult<f64> = CBatchResult::from_outcome(Err(CIndicatorError::InvalidInputs), 1, None);
    assert_eq!(r.error, CIndicatorError::InvalidInputs);
    assert_eq!(r.num_outputs, 0);

    let r: CBatchResult<f64> = CBatchResult::missing_state();
    assert_eq!(r.error, CIndicatorError::InvalidIndicatorState);
    assert!(r.outputs.is_empty());
}

#[test]
fn simd_result_shapes() {
    let outcome: Result<(Vec<Vec<Vec<f64>>>, Vec<u8>), CIndicatorError> = Ok((
        vec![vec![vec![1.0, 2.0]], vec![vec![3.0, 4.0]], vec![vec![5.0, 6.0]], vec![vec![7.0, 8.0]]],
        vec![10, 11, 12, 13],
    ));
    let r = CSimdResult::from_outcome(outcome, 1, None);
    assert_eq!(r.error, CIndicatorError::NoError);
    assert_eq!(r.num_results, 4);
    assert_eq!(r.num_outputs, 1);
    assert_eq!(r.states, vec![10, 11, 12, 13]);
    assert_eq!(r.outputs[2].outputs, vec![vec![5.0, 6.0]]);

    let r: CSimdResult<f64, u8> = CSimdResult::from_outcome(Err(CIndicatorError::InvalidOptions), 1, None);
    assert_eq!(r.error, CIndicatorError::InvalidOptions);
    assert_eq!(r.num_results, 0);
    assert!(r.states.is_empty());
}
