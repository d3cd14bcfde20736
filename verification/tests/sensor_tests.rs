use cocapn_marine::deadband::DeadbandState;
use cocapn_marine::nmea::NmeaError;
use cocapn_marine::sensor::sensor_ids;
use cocapn_marine::sensor::{ReadingQuality, SensorError, SensorType};

#[test]
fn test_reading_quality_from_fix() {
    assert_eq!(ReadingQuality::from_fix_quality(0), ReadingQuality::Invalid);
    assert_eq!(ReadingQuality::from_fix_quality(1), ReadingQuality::Good);
    assert_eq!(ReadingQuality::from_fix_quality(4), ReadingQuality::Excellent);
    assert_eq!(ReadingQuality::from_fix_quality(5), ReadingQuality::Poor);
}

#[test]
fn test_reading_quality_score_ordering() {
    let excellent = ReadingQuality::Excellent.score();
    let good = ReadingQuality::Good.score();
    let fair = ReadingQuality::Fair.score();
    let poor = ReadingQuality::Poor.score();
    let invalid = ReadingQuality::Invalid.score();
    assert!(excellent > good);
    assert!(good > fair);
    assert!(fair > poor);
    assert!(poor > invalid);
}

#[test]
fn test_sensor_display() {
    assert_eq!(SensorType::Gps.to_string(), "GPS");
    assert_eq!(SensorType::Custom("foo".into()).to_string(), "Custom(foo)");
}

#[test]
fn every_fix_quality_maps() {
    let expected = [
        ReadingQuality::Invalid,
        ReadingQuality::Good,
        ReadingQuality::Good,
        ReadingQuality::Fair,
        ReadingQuality::Excellent,
        ReadingQuality::Poor,
        ReadingQuality::Poor,
        ReadingQuality::Invalid,
    ];
    for (q, e) in expected.iter().enumerate() {
        assert_eq!(ReadingQuality::from_fix_quality(q as u8), *e);
        assert_eq!(ReadingQuality::from(q as u8), *e);
    }
    assert_eq!(ReadingQuality::from_fix_quality(255), ReadingQuality::Invalid);
}

#[test]
fn scores_are_five_to_one() {
    assert_eq!(ReadingQuality::Excellent.score(), 5);
    assert_eq!(ReadingQuality::Good.score(), 4);
    assert_eq!(ReadingQuality::Fair.score(), 3);
    assert_eq!(ReadingQuality::Poor.score(), 2);
    assert_eq!(ReadingQuality::Invalid.score(), 1);
}

#[test]
fn every_sensor_type_displays() {
    assert_eq!(SensorType::Depth.to_string(), "Depth");
    assert_eq!(SensorType::Heading.to_string(), "Heading");
    assert_eq!(SensorType::Speed.to_string(), "Speed");
    assert_eq!(SensorType::Wind.to_string(), "Wind");
    assert_eq!(SensorType::Temperature.to_string(), "Temperature");
    assert_eq!(SensorType::Custom(String::new()).to_string(), "Custom()");
}

#[test]
fn nmea_error_becomes_invalid_data() {
    match SensorError::from(NmeaError::TooShort) {
        SensorError::InvalidData(m) => assert_eq!(m, "NMEA parse error"),
        e => panic!("Expected InvalidData, got {:?}", e),
    }
}

#[test]
fn sensor_id_constants() {
    assert_eq!(sensor_ids::GPS, "gps");
    assert_eq!(sensor_ids::DEPTH, "depth");
    assert_eq!(sensor_ids::HEADING, "heading");
    assert_eq!(sensor_ids::SPEED, "speed");
    assert_eq!(sensor_ids::WIND, "wind");
    assert_eq!(sensor_ids::TEMPERATURE, "temperature");
}

#[test]
fn deadband_states_differ() {
    assert_ne!(DeadbandState::Normal, DeadbandState::Approaching);
    assert_ne!(DeadbandState::Approaching, DeadbandState::Exceeded);
    assert_eq!(DeadbandState::Exceeded, DeadbandState::Exceeded);
}
