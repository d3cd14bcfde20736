# cocapn_marine

Marine sensor integration: NMEA 0183 sentences, sensor quality rules, bathymetric
CSV import, deadbands and a heading autopilot.

- `src/` is the verified library (Verus). It holds the NMEA framing and checksum
  rules, the field layouts of GGA, RMC, DPT, VHW and HDG sentences with their times,
  dates and coordinates, the sensor types and reading qualities, the CSV rules for
  soundings and the quality labels. Contracts state each result exactly; proof
  functions state the laws (a written sentence reads back, a changed byte is caught,
  times and dates read are valid, quality labels read back, CSV rows come in line
  order).
- Decimal numbers are kept as text in the library: a parse lists the texts that
  must be numbers, in the order in which they are read.
- `app/` is ordinary Rust around the library: the messages and records with their
  `f64` values, sensors, the bathymetric database, deadbands and the PID autopilot,
  and the error types with their `std::error::Error` impls.
- `tests/` exercises the library.
