use bno080::sensorhub::Feature;
use bno080::sensorhub::FeatureFlags;
use bno080::sensorhub::FeatureReportConfig;
use bno080::sensorhub::QPoint;

#[test]
fn q_point() {
    let qp: QPoint = QPoint::from_feature(Feature::Accelerometer);
    let _val: f32 = (1i16 as f32) * (qp.scale_factor() as f32);
}

#[test]
fn feature_codes() {
    assert_eq!(Feature::RawAccelerometer.code(), 0x14);
    assert_eq!(Feature::Accelerometer.code(), 0x01);
    assert_eq!(Feature::RotationVector.code(), 0x05);
    assert_eq!(Feature::GyroIntegratedRotationVector.code(), 0x2A);
    assert_eq!(Feature::default().code(), 0x01);
}

#[test]
fn flag_codes() {
    assert_eq!(FeatureFlags::ChangeSensitivity.code(), 0x01);
    assert_eq!(FeatureFlags::WakeUp.code(), 0x02);
    assert_eq!(FeatureFlags::AlwaysOn.code(), 0x04);
}

#[test]
fn q_point_scales() {
    assert!(matches!(QPoint::from_feature(Feature::RotationVector), QPoint::Fourteen));
    assert_eq!(QPoint::from_feature(Feature::GyroscopeCalibrated).scale_factor(), 512);
    assert_eq!(QPoint::from_feature(Feature::MagneticFieldCalibrated).scale_factor(), 16);
    assert_eq!(QPoint::from_feature(Feature::RawGyroscope).scale_factor(), 0);
    assert_eq!(QPoint::Twenty.scale_factor(), 1 << 20);
    let _cfg = FeatureReportConfig::default();
}
