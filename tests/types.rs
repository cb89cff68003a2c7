use oics::omr::OmrError;
use oics::types::{
    parse_decimal_i32, parse_resolution, task_status, CpuData, EdgesDetectionParams, FourierTransformParams, Method, Params,
    ProjectionParams, SystemHardwareData, TaskStatus,
};

fn projection(step: u32) -> ProjectionParams {
    ProjectionParams {
        projection_max_angle: 45,
        projection_angle_step: step,
        projection_max_width: 248,
        projection_max_height: 230,
    }
}

#[test]
fn params_start_empty_and_keep_what_is_set() {
    let mut params = Params::new();
    assert!(params.get_projection_params().is_none());
    assert!(params.get_edges_params().is_none());
    assert!(params.get_fourier_params().is_none());
    params.set_projection_params(projection(200_000));
    params.set_edges_params(EdgesDetectionParams { min_line_length: 150, max_line_gap: 50 });
    let copy = params.clone();
    assert_eq!(*copy.get_projection_params(), Some(projection(200_000)));
    assert_eq!(
        *copy.get_edges_params(),
        Some(EdgesDetectionParams { min_line_length: 150, max_line_gap: 50 })
    );
    assert!(copy.get_fourier_params().is_none());
}

#[test]
fn params_checked_against_method() {
    let mut params = Params::new();
    assert_eq!(params.check_for(Method::Default), Err(OmrError::InvalidConfiguration));
    params.set_projection_params(projection(200_000));
    assert_eq!(params.check_for(Method::ProjectionOnly), Ok(()));
    assert_eq!(params.check_for(Method::Default), Err(OmrError::InvalidConfiguration));
    params.set_edges_params(EdgesDetectionParams { min_line_length: 150, max_line_gap: 50 });
    assert_eq!(params.check_for(Method::Default), Ok(()));
    assert_eq!(params.check_for(Method::FourierTransformOnly), Err(OmrError::InvalidConfiguration));
    params.set_fourier_params(FourierTransformParams { min_line_length: 40, max_line_gap: 10 });
    assert_eq!(params.check_for(Method::FourierTransformOnly), Ok(()));
    params.set_projection_params(projection(0));
    assert_eq!(params.check_for(Method::Default), Err(OmrError::InvalidConfiguration));
    assert_eq!(params.check_for(Method::EdgesDetectionOnly), Ok(()));
}

#[test]
fn methods_name_their_estimators() {
    assert!(Method::Default.needs_projection() && Method::Default.needs_edges());
    assert!(!Method::Default.needs_fourier());
    assert!(Method::ProjectionOnly.needs_projection() && !Method::ProjectionOnly.needs_edges());
    assert!(Method::EdgesDetectionOnly.needs_edges());
    assert!(Method::FourierTransformOnly.needs_fourier());
}

#[test]
fn task_status_follows_outcome() {
    assert_eq!(task_status(&Ok((-7_000_000, false))), TaskStatus::Finished);
    assert_eq!(task_status(&Ok((1, true))), TaskStatus::Debatable);
    assert_eq!(task_status(&Err(OmrError::DecodeFailure)), TaskStatus::Error);
    assert_eq!(TaskStatus::Finished.label(), "finished");
    assert_eq!(TaskStatus::Debatable.label(), "debatable");
    assert_eq!(TaskStatus::Error.label(), "error");
}

#[test]
fn hardware_data_holds_values() {
    let cpu = CpuData::new(String::from("chip"), 4, 8);
    let data = SystemHardwareData { cpu };
    assert_eq!(data.cpu.chip_name, "chip");
    assert_eq!(data.cpu.physical_core_counts, 4);
    assert_eq!(data.cpu.max_thread_counts, 8);
}

#[test]
fn resolution_parses_width_and_height() {
    assert_eq!(parse_resolution(b"248x230"), Ok((248, 230)));
    assert_eq!(parse_resolution(b"0x0"), Ok((0, 0)));
    assert_eq!(parse_resolution(b"-1x+5"), Ok((-1, 5)));
    assert_eq!(parse_resolution(b"-2147483648x2147483647"), Ok((i32::MIN, i32::MAX)));
}

#[test]
fn malformed_resolution_is_refused() {
    for text in ["", "12", "x5", "5x", "1x2x3", "12 x3", "2147483648x1", "1x-", "ax1", "1X2"] {
        assert_eq!(
            parse_resolution(text.as_bytes()),
            Err(OmrError::InvalidConfiguration),
            "{}",
            text
        );
    }
}

#[test]
fn decimal_parser_handles_signs_and_range() {
    assert_eq!(parse_decimal_i32(b"42"), Some(42));
    assert_eq!(parse_decimal_i32(b"+007"), Some(7));
    assert_eq!(parse_decimal_i32(b"-0"), Some(0));
    assert_eq!(parse_decimal_i32(b"-"), None);
    assert_eq!(parse_decimal_i32(b""), None);
    assert_eq!(parse_decimal_i32(b"99999999999"), None);
    assert_eq!(parse_decimal_i32(b"-2147483649"), None);
}
