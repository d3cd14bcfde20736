use cocapn_marine::bathy::{
    quality_from_label, quality_label, quality_of_lowercase, read_csv_rows, timestamp_from_parse,
    BathyError,
};
use cocapn_marine::sensor::ReadingQuality;
use chrono::TimeZone;

struct Row {
    line: usize,
    lat: f64,
    lon: f64,
    depth: f64,
    timestamp: Option<(i64, u32)>,
    quality: ReadingQuality,
}

/// Reads the rows of a CSV text, their numbers in order, then the error that ends it.
fn import(csv: &str) -> Result<Vec<Row>, BathyError> {
    let parsed = read_csv_rows(csv);
    let mut rows = Vec::new();
    for r in parsed.rows {
        let num = |t: &str, what: &str| -> Result<f64, BathyError> {
            t.parse::<f64>().map_err(|e| BathyError::CsvParseError {
                line: r.line,
                message: format!("invalid {}: {}", what, e),
            })
        };
        let lat = num(&r.lat, "lat")?;
        let lon = num(&r.lon, "lon")?;
        let depth = num(&r.depth, "depth")?;
        let timestamp = match r.timestamp {
            Some(t) => Some(t?),
            None => None,
        };
        rows.push(Row { line: r.line, lat, lon, depth, timestamp, quality: r.quality });
    }
    match parsed.error {
        Some(e) => Err(e),
        None => Ok(rows),
    }
}

#[test]
fn test_import_from_csv_basic() {
    let csv = "48.0,-122.0,10.0\n48.1,-122.1,15.0\n";
    let records = import(csv).unwrap();
    assert_eq!(records.len(), 2);
    assert!((records[0].depth - 10.0).abs() < 1e-6);
    assert!((records[1].lat - 48.1).abs() < 1e-6);
    assert!((records[1].lon - (-122.1)).abs() < 1e-6);
}

#[test]
fn test_import_from_csv_with_quality() {
    let csv = "48.0,-122.0,10.0,2024-06-01T12:00:00Z,excellent\n48.1,-122.1,15.0,,fair\n";
    let records = import(csv).unwrap();
    assert_eq!(records.len(), 2);
    assert_eq!(records[0].quality, ReadingQuality::Excellent);
    assert_eq!(records[1].quality, ReadingQuality::Fair);
    let noon = chrono::Utc.with_ymd_and_hms(2024, 6, 1, 12, 0, 0).unwrap();
    assert_eq!(records[0].timestamp, Some((noon.timestamp(), 0)));
    assert_eq!(records[1].timestamp, None);
}

#[test]
fn test_import_round_trip() {
    let csv = "48.0,-122.0,10.0\nexport test,line,broken\n";
    let result = import(csv);
    assert!(result.is_err());
    match result.err().unwrap() {
        BathyError::CsvParseError { line, .. } => assert_eq!(line, 2),
        e => panic!("Expected CsvParseError, got {:?}", e),
    }
}

#[test]
fn test_import_skips_comments_and_blanks() {
    let csv = "# header comment\n\n48.0,-122.0,10.0\n   \n48.1,-122.1,15.0\n";
    let records = import(csv).unwrap();
    assert_eq!(records.len(), 2);
    assert_eq!(records[0].line, 3);
    assert_eq!(records[1].line, 5);
}

#[test]
fn too_few_columns_names_the_line_and_count() {
    let parsed = read_csv_rows("48.0,-122.0,10.0\n\n48.0,-122.0\n49.0,-1.0,2.0\n");
    assert_eq!(parsed.rows.len(), 1);
    assert_eq!(
        parsed.error,
        Some(BathyError::CsvParseError {
            line: 3,
            message: "expected at least 3 columns, got 2".to_string(),
        })
    );
}

#[test]
fn last_line_without_newline_is_read() {
    let parsed = read_csv_rows("1,2,3\r\n4,5,6");
    assert_eq!(parsed.rows.len(), 2);
    assert_eq!(parsed.rows[1].lat, "4");
    assert_eq!(parsed.rows[1].depth, "6");
    assert!(parsed.error.is_none());
}

#[test]
fn quality_column_is_lowered_and_trimmed() {
    let parsed = read_csv_rows("1,2,3,,EXCELLENT\n1,2,3,,Poor\n1,2,3,,unknown\n1,2,3,ts\n");
    assert_eq!(parsed.rows[0].quality, ReadingQuality::Excellent);
    assert_eq!(parsed.rows[1].quality, ReadingQuality::Poor);
    assert_eq!(parsed.rows[2].quality, ReadingQuality::Invalid);
    assert_eq!(parsed.rows[3].quality, ReadingQuality::Good);
    match &parsed.rows[3].timestamp {
        Some(Err(BathyError::CsvParseError { line, message })) => {
            assert_eq!(*line, 4);
            assert!(message.starts_with("invalid timestamp: "));
        }
        t => panic!("Expected a timestamp error, got {:?}", t),
    }
}

#[test]
fn quality_labels() {
    assert_eq!(quality_label(ReadingQuality::Excellent), "excellent");
    assert_eq!(quality_label(ReadingQuality::Good), "good");
    assert_eq!(quality_label(ReadingQuality::Fair), "fair");
    assert_eq!(quality_label(ReadingQuality::Poor), "poor");
    assert_eq!(quality_label(ReadingQuality::Invalid), "invalid");
}

#[test]
fn quality_label_reads_back() {
    for q in [
        ReadingQuality::Excellent,
        ReadingQuality::Good,
        ReadingQuality::Fair,
        ReadingQuality::Poor,
        ReadingQuality::Invalid,
    ] {
        assert_eq!(quality_from_label(quality_label(q)), q);
    }
    assert_eq!(quality_from_label(" Fair "), ReadingQuality::Fair);
    assert_eq!(quality_from_label("GOOD"), ReadingQuality::Good);
    assert_eq!(quality_from_label("excellente"), ReadingQuality::Invalid);
}

#[test]
fn timestamp_with_offset_and_fraction() {
    let parsed = read_csv_rows("1,2,3,2024-06-01T14:00:00.5+02:00\n");
    let noon = chrono::Utc.with_ymd_and_hms(2024, 6, 1, 12, 0, 0).unwrap();
    assert_eq!(parsed.rows[0].timestamp, Some(Ok((noon.timestamp(), 500_000_000))));
}

#[test]
fn bad_number_is_reported_before_bad_timestamp() {
    let err = import("48.0,x,10.0,not a time\n").err().unwrap();
    match err {
        BathyError::CsvParseError { line, message } => {
            assert_eq!(line, 1);
            assert!(message.starts_with("invalid lon: "), "{}", message);
        }
        e => panic!("Expected CsvParseError, got {:?}", e),
    }
    let err = import("48.0,1.0,10.0,not a time\n").err().unwrap();
    match err {
        BathyError::CsvParseError { line, message } => {
            assert_eq!(line, 1);
            assert!(message.starts_with("invalid timestamp: "), "{}", message);
        }
        e => panic!("Expected CsvParseError, got {:?}", e),
    }
}

#[test]
fn lowercase_quality_is_trimmed_and_matched() {
    assert_eq!(quality_of_lowercase("  good\t"), ReadingQuality::Good);
    assert_eq!(quality_of_lowercase("poor"), ReadingQuality::Poor);
    assert_eq!(quality_of_lowercase("Poor"), ReadingQuality::Invalid);
    assert_eq!(quality_of_lowercase(""), ReadingQuality::Invalid);
}

#[test]
fn timestamp_errors_name_the_line() {
    assert_eq!(timestamp_from_parse(7, Ok((5, 6))), Ok((5, 6)));
    assert_eq!(
        timestamp_from_parse(7, Err("premature end of input".to_string())),
        Err(BathyError::CsvParseError {
            line: 7,
            message: "invalid timestamp: premature end of input".to_string(),
        })
    );
}
