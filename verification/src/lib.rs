//! Marine sensor integration: NMEA 0183 framing and field parsing, sensor
//! quality rules, bathymetric CSV import and deadband states, with contracts
//! proved by Verus.

pub mod text;
pub mod sensor;
pub mod nmea;
pub mod bathy;
pub mod deadband;
