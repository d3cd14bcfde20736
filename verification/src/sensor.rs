use vstd::prelude::*;
use vstd::string::*;

use crate::nmea::NmeaError;

pub mod sensor_ids;

verus! {

/// Types of marine sensors.
#[derive(Debug, Clone, PartialEq)]
pub enum SensorType {
    Gps,
    Depth,
    Heading,
    Speed,
    Wind,
    Temperature,
    Custom(String),
}

/// The text that names a sensor type.
pub open spec fn sensor_type_text(t: SensorType) -> Seq<char> {
    match t {
        SensorType::Gps => "GPS"@,
        SensorType::Depth => "Depth"@,
        SensorType::Heading => "Heading"@,
        SensorType::Speed => "Speed"@,
        SensorType::Wind => "Wind"@,
        SensorType::Temperature => "Temperature"@,
        SensorType::Custom(s) => "Custom("@ + s@ + ")"@,
    }
}

impl SensorType {
    /// The display text of the sensor type, e.g. `GPS` or `Custom(foo)`.
    pub fn to_string(&self) -> (r: String)
        ensures
            r@ == sensor_type_text(*self),
    {
        match self {
            SensorType::Gps => String::from_str("GPS"),
            SensorType::Depth => String::from_str("Depth"),
            SensorType::Heading => String::from_str("Heading"),
            SensorType::Speed => String::from_str("Speed"),
            SensorType::Wind => String::from_str("Wind"),
            SensorType::Temperature => String::from_str("Temperature"),
            SensorType::Custom(s) => {
                let mut r = String::from_str("Custom(");
                r.append(s.as_str());
                r.append(")");
                r
            },
        }
    }
}

/// Quality indicator for a sensor reading.
#[derive(Debug, Clone, Copy, PartialEq, Eq, Structural)]
pub enum ReadingQuality {
    Excellent,
    Good,
    Fair,
    Poor,
    Invalid,
}

/// The quality that an NMEA GGA fix-quality value stands for.
pub open spec fn fix_quality_to_quality(q: u8) -> ReadingQuality {
    if q == 4 {
        ReadingQuality::Excellent
    } else if q == 1 || q == 2 {
        ReadingQuality::Good
    } else if q == 3 {
        ReadingQuality::Fair
    } else if q == 5 || q == 6 {
        ReadingQuality::Poor
    } else {
        ReadingQuality::Invalid
    }
}

/// The numeric score of a quality: higher is better.
pub open spec fn quality_score(q: ReadingQuality) -> u8 {
    match q {
        ReadingQuality::Excellent => 5,
        ReadingQuality::Good => 4,
        ReadingQuality::Fair => 3,
        ReadingQuality::Poor => 2,
        ReadingQuality::Invalid => 1,
    }
}

impl ReadingQuality {
    /// Convert from an NMEA fix quality value.
    pub fn from_fix_quality(q: u8) -> (r: Self)
        ensures
            r == fix_quality_to_quality(q),
    {
        match q {
            4 => ReadingQuality::Excellent,
            1 | 2 => ReadingQuality::Good,
            3 => ReadingQuality::Fair,
            5 | 6 => ReadingQuality::Poor,
            _ => ReadingQuality::Invalid,
        }
    }

    /// Returns a numeric score where higher is better.
    pub fn score(&self) -> (r: u8)
        ensures
            r == quality_score(*self),
            1 <= r <= 5,
    {
        match self {
            ReadingQuality::Excellent => 5,
            ReadingQuality::Good => 4,
            ReadingQuality::Fair => 3,
            ReadingQuality::Poor => 2,
            ReadingQuality::Invalid => 1,
        }
    }
}

impl From<u8> for ReadingQuality {
    fn from(q: u8) -> (r: Self)
        ensures
            r == fix_quality_to_quality(q),
    {
        ReadingQuality::from_fix_quality(q)
    }
}

impl vstd::std_specs::convert::FromSpecImpl<u8> for ReadingQuality {
    open spec fn obeys_from_spec() -> bool {
        true
    }

    open spec fn from_spec(v: u8) -> Self {
        fix_quality_to_quality(v)
    }
}

/// Errors produced by sensor operations.
#[derive(Debug)]
pub enum SensorError {
    NotAvailable(String),
    ReadFailure(String, String),
    InvalidData(String),
    CommsError(String),
}

impl From<NmeaError> for SensorError {
    /// Any NMEA parse error becomes invalid data.
    fn from(_e: NmeaError) -> (r: Self)
        ensures
            r matches SensorError::InvalidData(m) && m@ == "NMEA parse error"@,
    {
        SensorError::InvalidData(String::from_str("NMEA parse error"))
    }
}

impl vstd::std_specs::convert::FromSpecImpl<NmeaError> for SensorError {
    /// A `SensorError` holds a `String`, which no spec value can be written for,
    /// so the conversion is stated by the `ensures` of `from` alone.
    open spec fn obeys_from_spec() -> bool {
        false
    }

    open spec fn from_spec(v: NmeaError) -> Self {
        arbitrary()
    }
}

/// The score falls strictly from `Excellent` to `Invalid`.
pub proof fn lemma_score_order()
    ensures
        quality_score(ReadingQuality::Excellent) > quality_score(ReadingQuality::Good),
        quality_score(ReadingQuality::Good) > quality_score(ReadingQuality::Fair),
        quality_score(ReadingQuality::Fair) > quality_score(ReadingQuality::Poor),
        quality_score(ReadingQuality::Poor) > quality_score(ReadingQuality::Invalid),
{
}

} // verus!
