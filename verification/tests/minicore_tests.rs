use fixture::error::FixtureError;
use fixture::minicore::MiniCore;

const RES: &str = "//! Reference text.\n//! Available flags:\n//!     y\n//!     x: y\n\nalways\n// region:y\nin_y\n// endregion:y\n// region:x\nin_x\n// endregion:x\n";

#[test]
fn activated_region_is_kept() {
    let mc = MiniCore { activated_flags: vec!["y".to_string()], valid_flags: vec![] };
    let out = mc.source_code(RES).unwrap();
    assert_eq!("alwaysin_y", out);
}

#[test]
fn implied_flag_keeps_region() {
    let mc = MiniCore::parse("//- minicore: x").unwrap();
    let out = mc.source_code(RES).unwrap();
    assert_eq!("alwaysin_yin_x", out);
}

#[test]
fn closure_is_transitive() {
    let res = "//! D.\n//! Available flags:\n//!     z\n//!     y: z\n//!     x: y\n\n// region:x\na\n// endregion:x\n// region:y\nb\n// endregion:y\n// region:z\nc\n// endregion:z\n";
    let mc = MiniCore::parse("//- minicore: x").unwrap();
    assert_eq!("abc", mc.source_code(res).unwrap());
}

#[test]
fn unused_flag_is_fatal() {
    let res = "//! D.\n//! Available flags:\n//!     y\n//!     z\n\n// region:y\nbody\n// endregion:y\n";
    let mc = MiniCore::parse("//- minicore: y").unwrap();
    match mc.source_code(res) {
        Err(FixtureError::UnusedFlag { flag }) => assert_eq!("z", flag),
        _ => panic!("expected an unused-flag error"),
    }
}

#[test]
fn unknown_activated_flag_is_fatal() {
    let mc = MiniCore::parse("//- minicore: nope").unwrap();
    match mc.source_code(RES) {
        Err(FixtureError::InvalidFlag { flag }) => assert_eq!("nope", flag),
        _ => panic!("expected an invalid-flag error"),
    }
}

#[test]
fn mismatched_end_region_is_fatal() {
    let res = "//! D.\n//! Available flags:\n//!     y\n\n// region:y\nbody\n// endregion:z\n";
    let mc = MiniCore { activated_flags: vec![], valid_flags: vec![] };
    match mc.source_code(res) {
        Err(FixtureError::RegionMismatch { open, close }) => {
            assert_eq!("y", open);
            assert_eq!("z", close);
        }
        _ => panic!("expected a region-mismatch error"),
    }
}

#[test]
fn end_region_without_start_is_fatal() {
    let res = "//! D.\n//! Available flags:\n//!     y\n\n// endregion:y\n";
    let mc = MiniCore { activated_flags: vec![], valid_flags: vec![] };
    match mc.source_code(res) {
        Err(FixtureError::RegionUnderflow { region }) => assert_eq!("y", region),
        _ => panic!("expected a region-underflow error"),
    }
}

#[test]
fn inline_region_gates_single_line() {
    let res = "//! D.\n//! Available flags:\n//!     y\n\nkeep\ngated // :y\n";
    let mc = MiniCore { activated_flags: vec![], valid_flags: vec![] };
    assert_eq!("keep", mc.source_code(res).unwrap());
}

#[test]
fn inline_region_kept_when_active() {
    let res = "//! D.\n//! Available flags:\n//!     y\n\ngated // :y\n";
    let mc = MiniCore { activated_flags: vec!["y".to_string()], valid_flags: vec![] };
    assert_eq!("gated // :y", mc.source_code(res).unwrap());
}

#[test]
fn region_name_with_leading_space_is_fatal() {
    let res = "//! D.\n//! Available flags:\n//!     y\n\ncode // : y\n";
    let mc = MiniCore { activated_flags: vec![], valid_flags: vec![] };
    match mc.source_code(res) {
        Err(FixtureError::RegionLeadingSpace { region }) => assert_eq!(" y", region),
        _ => panic!("expected a leading-space error"),
    }
}

#[test]
fn forward_referenced_dependency_is_fatal() {
    let res = "//! D.\n//! Available flags:\n//!     x: y\n//!     y\n\nbody\n";
    let mc = MiniCore { activated_flags: vec![], valid_flags: vec![] };
    match mc.source_code(res) {
        Err(FixtureError::InvalidFlag { flag }) => assert_eq!("y", flag),
        _ => panic!("expected an invalid-flag error"),
    }
}

#[test]
fn preamble_must_end_at_blank_line() {
    let res = "//! D.\nnot blank\n";
    let mc = MiniCore { activated_flags: vec![], valid_flags: vec![] };
    match mc.source_code(res) {
        Err(FixtureError::PreambleEnd { line }) => assert_eq!("not blank", line),
        _ => panic!("expected a preamble error"),
    }
}

#[test]
fn empty_region_leaves_its_flag_unseen() {
    let res = "//! D.\n//! Available flags:\n//!     y\n\n// region:y\n// endregion:y\n";
    let mc = MiniCore { activated_flags: vec![], valid_flags: vec![] };
    match mc.source_code(res) {
        Err(FixtureError::UnusedFlag { flag }) => assert_eq!("y", flag),
        _ => panic!("expected an unused-flag error"),
    }
}

#[test]
fn has_flag_and_valid_flag_queries() {
    let mc = MiniCore {
        activated_flags: vec!["a".to_string()],
        valid_flags: vec!["a".to_string(), "b".to_string()],
    };
    assert!(mc.has_flag("a"));
    assert!(!mc.has_flag("b"));
    assert!(mc.assert_valid_flag("b").is_ok());
    match mc.assert_valid_flag("c") {
        Err(FixtureError::InvalidFlag { flag }) => assert_eq!("c", flag),
        _ => panic!("expected an invalid-flag error"),
    }
}
