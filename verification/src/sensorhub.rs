//! Sensor-hub feature reports: the feature codes, report flags, and the
//! fixed-point (Q point) scaling that each feature's report values use.

use vstd::prelude::*;

verus! {

/// The features the sensor hub can report, each with a wire code given by
/// `feature_code`.
#[derive(Debug, Clone, Copy, PartialEq, Eq, Structural)]
pub enum Feature {
    /// Reports values as ADCs
    RawAccelerometer,
    /// Reports values as m/s^2
    Accelerometer,
    /// Reports values as m/s^2
    LinearAcceleration,
    /// Reports values as m/s^2
    Gravity,
    /// Reports values as ADCs
    RawGyroscope,
    /// Reports values as rad/s
    GyroscopeCalibrated,
    /// Reports values as rad/s, also reports drift estimation as rad/s
    GyroscopeUncalibrated,
    /// Reports values as ADCs
    RawMagnetometer,
    /// Reports values as uTesla
    MagneticFieldCalibrated,
    /// Reports values as uTesla, also reports drift estimation as uTesla
    MagneticFieldUncalibrated,
    /// Reports values as unit quaternion plus heading accuracy
    RotationVector,
    /// Reports values as unit quaternion
    GameRotationVector,
    /// Reports values as unit quaternion plus heading accuracy
    GeomagneticRotationVector,
    /// Reports values as hectopascals
    Pressure,
    AmbientLight,
    Humidity,
    Proximity,
    Temperature,
    TapDetector,
    StepDetector,
    StepCounter,
    SignificantMotion,
    StabilityClassifier,
    ShakeDetector,
    FlipDetector,
    PickupDetector,
    StabilityDetector,
    PersonalActivityClassifier,
    SleepDetector,
    TiltDetector,
    PocketDetector,
    CircleDetector,
    HeartRateMonitor,
    ArVrStabilisedRotationVector,
    ArVrStabilisedGameRotationVector,
    GyroIntegratedRotationVector,
}

/// The wire code of each feature.
pub open spec fn feature_code(f: Feature) -> u8 {
    match f {
        Feature::RawAccelerometer => 0x14,
        Feature::Accelerometer => 0x01,
        Feature::LinearAcceleration => 0x04,
        Feature::Gravity => 0x06,
        Feature::RawGyroscope => 0x15,
        Feature::GyroscopeCalibrated => 0x02,
        Feature::GyroscopeUncalibrated => 0x07,
        Feature::RawMagnetometer => 0x16,
        Feature::MagneticFieldCalibrated => 0x03,
        Feature::MagneticFieldUncalibrated => 0x0F,
        Feature::RotationVector => 0x05,
        Feature::GameRotationVector => 0x08,
        Feature::GeomagneticRotationVector => 0x09,
        Feature::Pressure => 0x0A,
        Feature::AmbientLight => 0x0B,
        Feature::Humidity => 0x0C,
        Feature::Proximity => 0x0D,
        Feature::Temperature => 0x0E,
        Feature::TapDetector => 0x10,
        Feature::StepDetector => 0x18,
        Feature::StepCounter => 0x11,
        Feature::SignificantMotion => 0x12,
        Feature::StabilityClassifier => 0x13,
        Feature::ShakeDetector => 0x19,
        Feature::FlipDetector => 0x1A,
        Feature::PickupDetector => 0x1B,
        Feature::StabilityDetector => 0x1C,
        Feature::PersonalActivityClassifier => 0x1E,
        Feature::SleepDetector => 0x1F,
        Feature::TiltDetector => 0x20,
        Feature::PocketDetector => 0x21,
        Feature::CircleDetector => 0x22,
        Feature::HeartRateMonitor => 0x23,
        Feature::ArVrStabilisedRotationVector => 0x28,
        Feature::ArVrStabilisedGameRotationVector => 0x29,
        Feature::GyroIntegratedRotationVector => 0x2A,
    }
}

impl Feature {
    /// The feature's wire code.
    pub fn code(&self) -> (c: u8)
        ensures
            c == feature_code(*self),
    {
        match *self {
            Feature::RawAccelerometer => 0x14,
            Feature::Accelerometer => 0x01,
            Feature::LinearAcceleration => 0x04,
            Feature::Gravity => 0x06,
            Feature::RawGyroscope => 0x15,
            Feature::GyroscopeCalibrated => 0x02,
            Feature::GyroscopeUncalibrated => 0x07,
            Feature::RawMagnetometer => 0x16,
            Feature::MagneticFieldCalibrated => 0x03,
            Feature::MagneticFieldUncalibrated => 0x0F,
            Feature::RotationVector => 0x05,
            Feature::GameRotationVector => 0x08,
            Feature::GeomagneticRotationVector => 0x09,
            Feature::Pressure => 0x0A,
            Feature::AmbientLight => 0x0B,
            Feature::Humidity => 0x0C,
            Feature::Proximity => 0x0D,
            Feature::Temperature => 0x0E,
            Feature::TapDetector => 0x10,
            Feature::StepDetector => 0x18,
            Feature::StepCounter => 0x11,
            Feature::SignificantMotion => 0x12,
            Feature::StabilityClassifier => 0x13,
            Feature::ShakeDetector => 0x19,
            Feature::FlipDetector => 0x1A,
            Feature::PickupDetector => 0x1B,
            Feature::StabilityDetector => 0x1C,
            Feature::PersonalActivityClassifier => 0x1E,
            Feature::SleepDetector => 0x1F,
            Feature::TiltDetector => 0x20,
            Feature::PocketDetector => 0x21,
            Feature::CircleDetector => 0x22,
            Feature::HeartRateMonitor => 0x23,
            Feature::ArVrStabilisedRotationVector => 0x28,
            Feature::ArVrStabilisedGameRotationVector => 0x29,
            Feature::GyroIntegratedRotationVector => 0x2A,
        }
    }
}

impl Default for Feature {
    /// The feature assumed when none is named.
    fn default() -> (r: Self)
        ensures
            r == Feature::Accelerometer,
    {
        Feature::Accelerometer
    }
}

/// Common Dynamic Feature Report as found in the sensor hub's reference
/// manual.
#[derive(Debug)]
pub struct FeatureReportConfig {
    feature: Feature,
    flags: u8,
    change_sensitivity: u16,
    report_interval: u32,
    batch_interval: u32,
    sensor_specific_config: u32,
}

impl FeatureReportConfig {
    /// The all-zero report for the default feature.
    pub closed spec fn default_spec() -> FeatureReportConfig {
        FeatureReportConfig {
            feature: Feature::Accelerometer,
            flags: 0,
            change_sensitivity: 0,
            report_interval: 0,
            batch_interval: 0,
            sensor_specific_config: 0,
        }
    }
}

impl Default for FeatureReportConfig {
    /// An all-zero report for the default feature.
    fn default() -> (r: Self)
        ensures
            r == Self::default_spec(),
    {
        FeatureReportConfig {
            feature: Feature::Accelerometer,
            flags: 0,
            change_sensitivity: 0,
            report_interval: 0,
            batch_interval: 0,
            sensor_specific_config: 0,
        }
    }
}

/// Feature report flags, each with a wire code given by `flag_code`.
#[derive(Debug, Clone, Copy, PartialEq, Eq, Structural)]
pub enum FeatureFlags {
    ChangeSensitivity,
    WakeUp,
    AlwaysOn,
}

/// The wire code of each feature report flag.
pub open spec fn flag_code(f: FeatureFlags) -> u8 {
    match f {
        FeatureFlags::ChangeSensitivity => 0x01,
        FeatureFlags::WakeUp => 0x02,
        FeatureFlags::AlwaysOn => 0x04,
    }
}

impl FeatureFlags {
    /// The flag's wire code.
    pub fn code(&self) -> (c: u8)
        ensures
            c == flag_code(*self),
    {
        match *self {
            FeatureFlags::ChangeSensitivity => 0x01,
            FeatureFlags::WakeUp => 0x02,
            FeatureFlags::AlwaysOn => 0x04,
        }
    }
}

/// The fixed-point Q points that feature reports use.
#[derive(Debug, Clone, Copy, PartialEq, Eq, Structural)]
pub enum QPoint {
    Unscaled,
    Four,
    Eight,
    Nine,
    Twelve,
    Fourteen,
    Twenty,
}

/// Whether this crate carries the Q point of the given feature's reports.
pub open spec fn has_known_q_point(f: Feature) -> bool {
    match f {
        Feature::RawAccelerometer => true,
        Feature::Accelerometer => true,
        Feature::LinearAcceleration => true,
        Feature::Gravity => true,
        Feature::RawGyroscope => true,
        Feature::GyroscopeCalibrated => true,
        Feature::GyroscopeUncalibrated => true,
        Feature::RawMagnetometer => true,
        Feature::MagneticFieldCalibrated => true,
        Feature::MagneticFieldUncalibrated => true,
        Feature::RotationVector => true,
        Feature::GameRotationVector => true,
        Feature::GeomagneticRotationVector => true,
        _ => false,
    }
}

/// The Q point of each feature whose reports this crate knows how to scale.
pub open spec fn q_point_of(f: Feature) -> QPoint {
    match f {
        Feature::RawAccelerometer => QPoint::Unscaled,
        Feature::Accelerometer => QPoint::Eight,
        Feature::LinearAcceleration => QPoint::Eight,
        Feature::Gravity => QPoint::Eight,
        Feature::RawGyroscope => QPoint::Unscaled,
        Feature::GyroscopeCalibrated => QPoint::Nine,
        Feature::GyroscopeUncalibrated => QPoint::Nine,
        Feature::RawMagnetometer => QPoint::Unscaled,
        Feature::MagneticFieldCalibrated => QPoint::Four,
        Feature::MagneticFieldUncalibrated => QPoint::Four,
        Feature::RotationVector => QPoint::Fourteen,
        Feature::GameRotationVector => QPoint::Fourteen,
        Feature::GeomagneticRotationVector => QPoint::Fourteen,
        _ => QPoint::Unscaled,
    }
}

/// The scale factor `2^q` of each Q point, zero where there is no Q point.
pub open spec fn q_scale(q: QPoint) -> u32 {
    match q {
        QPoint::Unscaled => 0,
        QPoint::Four => 16,
        QPoint::Eight => 256,
        QPoint::Nine => 512,
        QPoint::Twelve => 4096,
        QPoint::Fourteen => 16384,
        QPoint::Twenty => 1048576,
    }
}

impl QPoint {
    /// The Q point of the given feature's report values.  Features whose Q
    /// point this crate does not carry are left out by precondition.
    pub fn from_feature(f: Feature) -> (q: QPoint)
        requires
            has_known_q_point(f),
        ensures
            q == q_point_of(f),
    {
        match f {
            Feature::RawAccelerometer => QPoint::Unscaled,
            Feature::Accelerometer => QPoint::Eight,
            Feature::LinearAcceleration => QPoint::Eight,
            Feature::Gravity => QPoint::Eight,
            Feature::RawGyroscope => QPoint::Unscaled,
            Feature::GyroscopeCalibrated => QPoint::Nine,
            Feature::GyroscopeUncalibrated => QPoint::Nine,
            Feature::RawMagnetometer => QPoint::Unscaled,
            Feature::MagneticFieldCalibrated => QPoint::Four,
            Feature::MagneticFieldUncalibrated => QPoint::Four,
            Feature::RotationVector => QPoint::Fourteen,
            Feature::GameRotationVector => QPoint::Fourteen,
            Feature::GeomagneticRotationVector => QPoint::Fourteen,
            _ => QPoint::Unscaled,
        }
    }

    /// The scale factor `2^q` of this Q point, zero when there is none.
    pub fn scale_factor(&self) -> (s: u32)
        ensures
            s == q_scale(*self),
    {
        match *self {
            QPoint::Unscaled => 0,
            QPoint::Four => 16,
            QPoint::Eight => 256,
            QPoint::Nine => 512,
            QPoint::Twelve => 4096,
            QPoint::Fourteen => 16384,
            QPoint::Twenty => 1048576,
        }
    }
}

} // verus!
