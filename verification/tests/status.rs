//! Status flags and their severity.

use fw_fanctrl_loop::status::{flag_severity, Mode, Severity, StatusFlag};

const ALL_STATUS_FLAGS: [StatusFlag; 13] = [
    StatusFlag::LimitNotSticking,
    StatusFlag::Resumed,
    StatusFlag::NotCalibrated,
    StatusFlag::TargetUnreachable,
    StatusFlag::ThermalEmergency,
    StatusFlag::SensorLost,
    StatusFlag::FanctrlLost,
    StatusFlag::EcMismatch,
    StatusFlag::SteepCurve,
    StatusFlag::CurveInvalid,
    StatusFlag::GpuHot,
    StatusFlag::NvmeHot,
    StatusFlag::ReadbackBlind,
];

#[test]
fn flag_severity_covers_every_flag() {
    for flag in ALL_STATUS_FLAGS {
        let _ = flag_severity(flag);
    }
}

#[test]
fn curve_invalid_is_warning_steep_curve_is_info_and_they_differ() {
    assert_eq!(flag_severity(StatusFlag::CurveInvalid), Severity::Warning);
    assert_eq!(flag_severity(StatusFlag::SteepCurve), Severity::Info);
    assert_ne!(
        flag_severity(StatusFlag::CurveInvalid),
        flag_severity(StatusFlag::SteepCurve)
    );
}

#[test]
fn severities_rank_loudest_first() {
    assert!(Severity::Critical < Severity::Warning);
    assert!(Severity::Warning < Severity::Info);
    let critical: Vec<&str> = ALL_STATUS_FLAGS
        .iter()
        .filter(|f| flag_severity(**f) == Severity::Critical)
        .map(|f| f.as_str())
        .collect();
    assert_eq!(
        critical,
        vec!["target_unreachable", "thermal_emergency", "sensor_lost"]
    );
}

#[test]
fn flag_names_are_the_telemetry_names() {
    let names: Vec<&str> = ALL_STATUS_FLAGS.iter().map(|f| f.as_str()).collect();
    assert_eq!(
        names,
        vec![
            "limit_not_sticking",
            "resumed",
            "not_calibrated",
            "target_unreachable",
            "thermal_emergency",
            "sensor_lost",
            "fanctrl_lost",
            "ec_mismatch",
            "steep_curve",
            "curve_invalid",
            "gpu_hot",
            "nvme_hot",
            "readback_blind",
        ]
    );
}

#[test]
fn mode_names_and_default() {
    assert_eq!(Mode::default(), Mode::Monitor);
    assert_eq!(Mode::Monitor.as_str(), "monitor");
    assert_eq!(Mode::Manual.as_str(), "manual");
    assert_eq!(Mode::Calibrating.as_str(), "calibrating");
    assert_eq!(Mode::Auto.as_str(), "auto");
}
