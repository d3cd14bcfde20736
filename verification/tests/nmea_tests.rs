use cocapn_marine::nmea::fields::{
    parse_nmea_coordinate, parse_nmea_fields, read_date, read_time, CoordinateText, NmeaDate,
    NmeaFields, NmeaTime, Staged,
};
use cocapn_marine::nmea::{compute_checksum, parse_nmea_sentence, NmeaError, NmeaSentence};

fn nmea_checksum(body_without_dollar_and_star: &str) -> u8 {
    let mut cs: u8 = 0;
    for b in body_without_dollar_and_star.bytes() {
        cs ^= b;
    }
    cs
}

fn make_sentence(body: &str) -> String {
    let cs = nmea_checksum(body);
    format!("${}*{:02X}", body, cs)
}

/// Reads the listed number texts in order, then gives the end of the parse.
fn finish<T>(staged: Staged<T>) -> Result<T, NmeaError> {
    for t in &staged.numbers {
        if t.parse::<f64>().is_err() {
            return Err(NmeaError::FloatParse(t.clone()));
        }
    }
    staged.end.expect("a field slice would cut a character")
}

fn number(t: &Option<String>) -> f64 {
    match t {
        Some(s) => s.parse().unwrap(),
        None => 0.0,
    }
}

fn degrees(c: &CoordinateText) -> f64 {
    let d: f64 = c.degrees.parse().unwrap();
    d + number(&c.minutes) / 60.0
}

fn parse(sentence: &str) -> Result<NmeaFields, NmeaError> {
    finish(parse_nmea_fields(sentence))
}

// ----- GGA tests -----
#[test]
fn test_gga_valid() {
    let body = "GPGGA,123519,4807.038,N,01131.000,E,1,08,0.9,545.4,M,46.9,M,,";
    let sent = make_sentence(&body);
    let msg = parse(&sent).unwrap();
    match msg {
        NmeaFields::Gga(g) => {
            assert_eq!(g.time, NmeaTime { hour: 12, minute: 35, second: 19 });
            let lat = if g.lat_south { -degrees(&g.lat) } else { degrees(&g.lat) };
            let lon = if g.lon_west { -degrees(&g.lon) } else { degrees(&g.lon) };
            assert!((lat - 48.1173).abs() < 0.001);
            assert!((lon - 11.516667).abs() < 0.001);
            assert_eq!(g.fix_quality, 1);
            assert_eq!(g.satellites, 8);
            assert!((number(&g.hdop) - 0.9).abs() < 0.01);
            assert!((number(&g.altitude) - 545.4).abs() < 0.01);
        }
        _ => panic!("Expected GGA"),
    }
}

#[test]
fn test_gga_southern_hemisphere_western() {
    let body = "GPGGA,123519,3343.000,S,15130.000,W,1,05,1.2,100.0,M,,";
    let sent = make_sentence(&body);
    let msg = parse(&sent).unwrap();
    match msg {
        NmeaFields::Gga(g) => {
            let lat = if g.lat_south { -degrees(&g.lat) } else { degrees(&g.lat) };
            let lon = if g.lon_west { -degrees(&g.lon) } else { degrees(&g.lon) };
            assert!(lat < 0.0);
            assert!(lon < 0.0);
            assert!((lat - (-33.716667)).abs() < 0.001);
            assert!((lon - (-151.5)).abs() < 0.001);
        }
        _ => panic!("Expected GGA"),
    }
}

// ----- RMC tests -----
#[test]
fn test_rmc_valid() {
    let body = "GPRMC,123519,A,4807.038,N,01131.000,E,022.4,084.4,230394,003.1,W";
    let sent = make_sentence(&body);
    let msg = parse(&sent).unwrap();
    match msg {
        NmeaFields::Rmc(r) => {
            assert_eq!(r.time, NmeaTime { hour: 12, minute: 35, second: 19 });
            assert_eq!(r.date, NmeaDate { year: 1994, month: 3, day: 23 });
            let lat = if r.lat_south { -degrees(&r.lat) } else { degrees(&r.lat) };
            let lon = if r.lon_west { -degrees(&r.lon) } else { degrees(&r.lon) };
            assert!((lat - 48.1173).abs() < 0.001);
            assert!((lon - 11.516667).abs() < 0.001);
            assert!((number(&r.speed_knots) - 22.4).abs() < 0.01);
            assert!((number(&r.course) - 84.4).abs() < 0.01);
        }
        _ => panic!("Expected RMC"),
    }
}

#[test]
fn test_rmc_with_empty_time() {
    let body = "GPRMC,,A,4807.038,N,01131.000,E,022.4,084.4,230394,003.1,W";
    let sent = make_sentence(body);
    let msg = parse(&sent).unwrap();
    match msg {
        NmeaFields::Rmc(r) => {
            assert_eq!(r.time, NmeaTime { hour: 0, minute: 0, second: 0 });
            assert_eq!(r.date, NmeaDate { year: 1994, month: 3, day: 23 });
        }
        _ => panic!("Expected RMC"),
    }
}

// ----- DPT tests -----
#[test]
fn test_dpt_valid() {
    let body = "SDDPT,12.3,0.0";
    let sent = make_sentence(&body);
    let msg = parse(&sent).unwrap();
    match msg {
        NmeaFields::Dpt(d) => {
            assert!((number(&d.depth_meters) - 12.3).abs() < 0.01);
            assert!((number(&d.offset) - 0.0).abs() < 0.01);
        }
        _ => panic!("Expected DPT"),
    }
}

#[test]
fn test_dpt_no_offset() {
    let body = "SDDPT,5.0";
    let sent = make_sentence(body);
    let msg = parse(&sent).unwrap();
    match msg {
        NmeaFields::Dpt(d) => {
            assert!((number(&d.depth_meters) - 5.0).abs() < 0.01);
            assert!((number(&d.offset) - 0.0).abs() < 0.01);
        }
        _ => panic!("Expected DPT"),
    }
}

// ----- VHW tests -----
#[test]
fn test_vhw_valid() {
    let body = "VWVHW,45.0,T,43.5,M,12.5,N";
    let sent = make_sentence(&body);
    let msg = parse(&sent).unwrap();
    match msg {
        NmeaFields::Vhw(v) => {
            assert!((number(&v.heading_true) - 45.0).abs() < 0.01);
            assert!((number(&v.heading_magnetic) - 43.5).abs() < 0.01);
            assert!((number(&v.speed_knots) - 12.5).abs() < 0.01);
        }
        _ => panic!("Expected VHW"),
    }
}

#[test]
fn test_vhw_partial() {
    let body = "VWVHW,,T,43.5,M,12.5,N";
    let sent = make_sentence(body);
    let msg = parse(&sent).unwrap();
    match msg {
        NmeaFields::Vhw(v) => {
            assert!(v.heading_true.is_none());
            assert!((number(&v.heading_magnetic) - 43.5).abs() < 0.01);
        }
        _ => panic!("Expected VHW"),
    }
}

// ----- HDG tests -----
#[test]
fn test_hdg_valid() {
    let body = "HCHDG,101.1,1.0,E,14.0,W";
    let sent = make_sentence(&body);
    let msg = parse(&sent).unwrap();
    match msg {
        NmeaFields::Hdg(h) => {
            let heading: f64 = h.heading.parse().unwrap();
            assert!((heading - 101.1).abs() < 0.01);
            let dev = h.deviation.unwrap();
            let dev_value: f64 = dev.text.parse().unwrap();
            let dev_value = if dev.negative { -dev_value } else { dev_value };
            assert!((dev_value - 1.0).abs() < 0.01);
            let var = h.variation.unwrap();
            let var_value: f64 = var.text.parse().unwrap();
            let var_value = if var.negative { -var_value } else { var_value };
            assert!((var_value - (-14.0)).abs() < 0.01);
        }
        _ => panic!("Expected HDG"),
    }
}

// ----- Checksum tests -----
#[test]
fn test_checksum_valid() {
    let body = "GPGGA,123519,4807.038,N,01131.000,E,1,08,0.9,545.4,M,46.9,M,,";
    let sent = make_sentence(&body);
    assert!(parse(&sent).is_ok());
}

#[test]
fn test_checksum_invalid() {
    let sent = "$GPGGA,123519,4807.038,N,01131.000,E,1,08,0.9,545.4,M,46.9,M,,*00";
    let err = parse(sent).unwrap_err();
    match err {
        NmeaError::ChecksumMismatch { .. } => {}
        _ => panic!("Expected ChecksumMismatch, got {:?}", err),
    }
}

#[test]
fn test_checksum_invalid_hex() {
    let sent = "$GPGGA,123519,4807.038,N,01131.000,E,1,08,0.9,545.4,M,46.9,M,,*ZZ";
    let err = parse(sent).unwrap_err();
    match err {
        NmeaError::InvalidChecksumHex => {}
        _ => panic!("Expected InvalidChecksumHex, got {:?}", err),
    }
}

#[test]
fn test_checksum_missing_marker() {
    let sent = "$GPGGA,123519,4807.038,N,01131.000,E,1,08,0.9,545.4,M,46.9,M,,";
    let err = parse(sent).unwrap_err();
    match err {
        NmeaError::MissingChecksumMarker => {}
        _ => panic!("Expected MissingChecksumMarker, got {:?}", err),
    }
}

// ----- Edge-case parsing tests -----
#[test]
fn test_too_short() {
    assert_eq!(parse("$*00").unwrap_err(), NmeaError::TooShort);
}

#[test]
fn test_missing_leading_dollar() {
    let err = parse("GPGGA,1*00").unwrap_err();
    assert_eq!(err, NmeaError::MissingLeadingDollar);
}

#[test]
fn test_custom_sentence() {
    let body = "IIMWV,45.0,R,12.5,N,A";
    let sent = make_sentence(body);
    let msg = parse(&sent).unwrap();
    match msg {
        NmeaFields::Custom(c) => {
            assert_eq!(c.talker, "II");
            assert_eq!(c.sentence_type, "MWV");
            assert_eq!(c.fields.len(), 5);
        }
        _ => panic!("Expected Custom"),
    }
}

// ----- Coordinate parsing tests -----
#[test]
fn test_parse_coordinate_latitude() {
    let lat = degrees(&finish(parse_nmea_coordinate("4807.038", true)).unwrap());
    assert!((lat - 48.1173).abs() < 0.001);
}

#[test]
fn test_parse_coordinate_longitude() {
    let lon = degrees(&finish(parse_nmea_coordinate("01131.000", false)).unwrap());
    assert!((lon - 11.516667).abs() < 0.001);
}

#[test]
fn test_parse_coordinate_empty() {
    assert!(finish(parse_nmea_coordinate("", true)).is_err());
}

// ----- compute_checksum verification -----
#[test]
fn test_compute_checksum_known() {
    let sent = "$GPGGA,123519,4807.038,N,01131.000,E,1,08,0.9,545.4,M,46.9,M,,*47";
    assert_eq!(compute_checksum(sent), 0x47);
}

// ----- Round-trip with make_sentence -----
#[test]
fn test_roundtrip_gga() {
    let body = "GPGGA,123519,4807.038,N,01131.000,E,1,08,0.9,545.4,M,46.9,M,,";
    let sent = make_sentence(body);
    let msg = parse(&sent).unwrap();
    assert!(matches!(msg, NmeaFields::Gga(_)));
}

// ----- Framing -----
#[test]
fn framing_splits_talker_type_and_fields() {
    let sent = make_sentence("GPXYZ,a,,b");
    let raw: NmeaSentence = parse_nmea_sentence(&sent).unwrap().unwrap();
    assert_eq!(raw.talker, "GP");
    assert_eq!(raw.sentence_type, "XYZ");
    assert_eq!(raw.fields, vec!["a".to_string(), String::new(), "b".to_string()]);
    assert_eq!(raw.checksum, nmea_checksum("GPXYZ,a,,b"));
}

#[test]
fn framing_trims_surrounding_whitespace() {
    let sent = format!("  \t{}\r\n", make_sentence("SDDPT,5.0"));
    let raw = parse_nmea_sentence(&sent).unwrap().unwrap();
    assert_eq!(raw.sentence_type, "DPT");
    assert_eq!(raw.fields, vec!["5.0".to_string()]);
}

#[test]
fn framing_reports_both_checksums_on_mismatch() {
    let sent = "$GPGGA,123519,4807.038,N,01131.000,E,1,08,0.9,545.4,M,46.9,M,,*00";
    let err = parse_nmea_sentence(sent).unwrap().unwrap_err();
    assert_eq!(err, NmeaError::ChecksumMismatch { expected: 0x47, actual: 0x00 });
}

#[test]
fn framing_accepts_lower_case_checksum_hex() {
    assert!(parse_nmea_sentence("$SDDPT,8.0*5d").unwrap().is_ok());
    assert!(parse_nmea_sentence("$SDDPT,8.0*5D").unwrap().is_ok());
}

#[test]
fn framing_short_address_is_too_short() {
    let sent = make_sentence("GP,1,2,3");
    assert_eq!(parse_nmea_sentence(&sent).unwrap().unwrap_err(), NmeaError::TooShort);
}

#[test]
fn written_sentence_reads_back() {
    let body = "IIMWV,45.0,R,12.5,N,A";
    let raw = parse_nmea_sentence(&make_sentence(body)).unwrap().unwrap();
    let mut rebuilt = format!("{}{}", raw.talker, raw.sentence_type);
    for f in &raw.fields {
        rebuilt.push(',');
        rebuilt.push_str(f);
    }
    assert_eq!(rebuilt, body);
    assert_eq!(raw.checksum, nmea_checksum(body));
}

#[test]
fn changed_byte_is_caught() {
    let sent = make_sentence("SDDPT,12.3,0.0");
    let corrupted = sent.replacen("12.3", "12.4", 1);
    match parse_nmea_sentence(&corrupted).unwrap().unwrap_err() {
        NmeaError::ChecksumMismatch { expected, actual } => assert_ne!(expected, actual),
        e => panic!("Expected ChecksumMismatch, got {:?}", e),
    }
}

#[test]
fn checksum_ignores_dollar_and_stops_at_star() {
    assert_eq!(compute_checksum("$AB*CD"), b'A' ^ b'B');
    assert_eq!(compute_checksum("AB"), b'A' ^ b'B');
    assert_eq!(compute_checksum(""), 0);
}

// ----- Field errors -----
#[test]
fn gga_with_too_few_fields_is_missing_fields() {
    let sent = make_sentence("GPGGA,123519,4807.038,N");
    assert_eq!(parse(&sent).unwrap_err(), NmeaError::MissingFields("GGA".to_string()));
}

#[test]
fn gga_bad_fix_quality() {
    let sent = make_sentence("GPGGA,123519,4807.038,N,01131.000,E,x,08,0.9,545.4,M,46.9,M,,");
    assert_eq!(parse(&sent).unwrap_err(), NmeaError::InvalidFixQuality("x".to_string()));
}

#[test]
fn gga_bad_satellites_is_float_parse() {
    let sent = make_sentence("GPGGA,123519,4807.038,N,01131.000,E,1,300,0.9,545.4,M,46.9,M,,");
    assert_eq!(parse(&sent).unwrap_err(), NmeaError::FloatParse("300".to_string()));
}

#[test]
fn gga_bad_altitude_is_float_parse() {
    let sent = make_sentence("GPGGA,123519,4807.038,N,01131.000,E,1,08,0.9,abc,M,46.9,M,,");
    assert_eq!(parse(&sent).unwrap_err(), NmeaError::FloatParse("abc".to_string()));
}

#[test]
fn gga_bad_latitude_comes_before_bad_fix_quality() {
    let sent = make_sentence("GPGGA,123519,4x07.038,N,01131.000,E,x,08,0.9,545.4,M,46.9,M,,");
    assert_eq!(parse(&sent).unwrap_err(), NmeaError::FloatParse("4x".to_string()));
}

#[test]
fn gga_short_longitude_is_invalid_coordinate() {
    let sent = make_sentence("GPGGA,123519,4807.038,N,01.5,E,1,08,0.9,545.4,M,46.9,M,,");
    assert_eq!(
        parse(&sent).unwrap_err(),
        NmeaError::InvalidCoordinate("int part too short: '01.5'".to_string())
    );
}

#[test]
fn gga_bad_hour_is_time_parse() {
    let sent = make_sentence("GPGGA,253519,4807.038,N,01131.000,E,1,08,0.9,545.4,M,46.9,M,,");
    assert_eq!(parse(&sent).unwrap_err(), NmeaError::TimeParse("253519".to_string()));
}

#[test]
fn rmc_bad_date_is_date_parse() {
    let sent = make_sentence("GPRMC,123519,A,4807.038,N,01131.000,E,022.4,084.4,310294,003.1,W");
    assert_eq!(parse(&sent).unwrap_err(), NmeaError::DateParse("310294".to_string()));
}

#[test]
fn rmc_short_date_is_date_parse() {
    let sent = make_sentence("GPRMC,123519,A,4807.038,N,01131.000,E,022.4,084.4,2303,003.1,W");
    assert_eq!(parse(&sent).unwrap_err(), NmeaError::DateParse("2303".to_string()));
}

#[test]
fn hdg_without_heading_is_missing_fields() {
    let sent = make_sentence("HCHDG,,1.0,E,14.0,W");
    assert_eq!(parse(&sent).unwrap_err(), NmeaError::MissingFields("HDG".to_string()));
}

#[test]
fn vhw_with_too_few_fields_is_missing_fields() {
    let sent = make_sentence("VWVHW,45.0,T,43.5");
    assert_eq!(parse(&sent).unwrap_err(), NmeaError::MissingFields("VHW".to_string()));
}

// ----- Times, dates and coordinates -----
#[test]
fn time_keeps_only_the_first_six_bytes() {
    assert_eq!(
        read_time("123519.25").unwrap().unwrap(),
        NmeaTime { hour: 12, minute: 35, second: 19 }
    );
    assert_eq!(
        read_time("246000").unwrap().unwrap_err(),
        NmeaError::TimeParse("246000".to_string())
    );
    assert_eq!(read_time("12x519").unwrap().unwrap_err(), NmeaError::TimeParse("12x519".to_string()));
}

#[test]
fn time_of_day_bounds() {
    assert_eq!(read_time("235959").unwrap().unwrap(), NmeaTime { hour: 23, minute: 59, second: 59 });
    assert!(read_time("240000").unwrap().is_err());
    assert!(read_time("236000").unwrap().is_err());
    assert!(read_time("235960").unwrap().is_err());
}

#[test]
fn two_digit_years_fall_in_1981_to_2080() {
    assert_eq!(read_date("010181").unwrap().unwrap(), NmeaDate { year: 1981, month: 1, day: 1 });
    assert_eq!(read_date("311280").unwrap().unwrap(), NmeaDate { year: 2080, month: 12, day: 31 });
    assert_eq!(read_date("290200").unwrap().unwrap(), NmeaDate { year: 2000, month: 2, day: 29 });
    assert!(read_date("290201").unwrap().is_err());
    assert!(read_date("001301").unwrap().is_err());
}

#[test]
fn coordinate_without_minutes() {
    let c = finish(parse_nmea_coordinate("48", true)).unwrap();
    assert_eq!(c.degrees, "48");
    assert!(c.minutes.is_none());
    let c = finish(parse_nmea_coordinate("48.5", true)).unwrap();
    assert_eq!(c.degrees, "48");
    assert_eq!(c.minutes, Some(".5".to_string()));
}

#[test]
fn coordinate_errors() {
    assert_eq!(
        finish(parse_nmea_coordinate("", true)).unwrap_err(),
        NmeaError::InvalidCoordinate("empty coordinate".to_string())
    );
    assert_eq!(
        finish(parse_nmea_coordinate("4.5", true)).unwrap_err(),
        NmeaError::InvalidCoordinate("int part too short: '4.5'".to_string())
    );
}

#[test]
fn accepted_checksum_equals_computed_checksum() {
    let sent = make_sentence("HCHDG,101.1,1.0,E,14.0,W");
    let raw = parse_nmea_sentence(&sent).unwrap().unwrap();
    assert_eq!(raw.checksum, compute_checksum(&sent));
    let wrong = format!("{}{:02X}", &sent[..sent.len() - 2], raw.checksum ^ 1);
    assert!(parse_nmea_sentence(&wrong).unwrap().is_err());
}
