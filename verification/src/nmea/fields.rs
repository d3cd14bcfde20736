//! The field layouts of the supported NMEA sentence types (GGA, RMC, DPT, VHW,
//! HDG), with the times, dates and coordinates that they hold.
//!
//! Decimal numbers are kept as their text: a parse lists, in the order in which
//! it reads them, the texts that must be numbers (see [`Staged`]).
use vstd::prelude::*;
use vstd::string::*;
use vstd::utf8::*;

use crate::nmea::{
    frame, outcome_view, parse_nmea_sentence, NmeaError, NmeaErrorView, NmeaSentence, SentenceView,
};
use crate::text::{
    cuts_at, parse_i32, parse_i32_in, parse_unsigned, parse_unsigned_in, same_text, substring_owned,
    text, texts, trimmed, utf8, opt_text, lemma_texts_push,
};

verus! {

broadcast use vstd::utf8::group_utf8_lib;

/// A parse that reads decimal numbers. The texts in `numbers` are read as numbers in
/// order; the first that is not a number ends the parse with
/// `NmeaError::FloatParse` of that text. When all are numbers, the parse ends with
/// `end`, where `None` stands for an input on which slicing a field would cut a
/// character in two.
#[derive(Debug)]
pub struct Staged<T> {
    pub numbers: Vec<String>,
    pub end: Option<Result<T, NmeaError>>,
}

/// A staged parse with its texts as bytes.
pub struct StagedView<V> {
    pub numbers: Seq<Seq<u8>>,
    pub end: Option<Result<V, NmeaErrorView>>,
}

impl<T: View> View for Staged<T> {
    type V = StagedView<T::V>;

    open spec fn view(&self) -> StagedView<T::V> {
        StagedView { numbers: texts(self.numbers@), end: outcome_view(self.end) }
    }
}

/// A staged parse that ends with `end` before reading any number.
pub open spec fn staged_end<V>(end: Option<Result<V, NmeaErrorView>>) -> StagedView<V> {
    StagedView { numbers: Seq::empty(), end }
}

/// The end of a parse that did not succeed, seen as the end of an enclosing parse.
pub open spec fn failed<V, W>(end: Option<Result<V, NmeaErrorView>>) -> Option<Result<W, NmeaErrorView>> {
    match end {
        Some(Err(e)) => Some(Err(e)),
        _ => None,
    }
}

/// A time of day read from an `hhmmss` field.
#[derive(Debug, Clone, Copy, PartialEq, Eq, Structural)]
pub struct NmeaTime {
    pub hour: u32,
    pub minute: u32,
    pub second: u32,
}

impl View for NmeaTime {
    type V = NmeaTime;

    open spec fn view(&self) -> NmeaTime {
        *self
    }
}

/// A calendar date read from a `ddmmyy` field.
#[derive(Debug, Clone, Copy, PartialEq, Eq, Structural)]
pub struct NmeaDate {
    pub year: i32,
    pub month: u32,
    pub day: u32,
}

impl View for NmeaDate {
    type V = NmeaDate;

    open spec fn view(&self) -> NmeaDate {
        *self
    }
}

/// Calls `chrono::NaiveTime::from_hms_opt` and tells whether it gives a time. Its
/// documentation says that it returns `None` on an invalid hour, minute or second,
/// and its source rejects exactly an hour of 24 or more, a minute or second of 60 or more.
#[verifier::external_body]
fn time_exists(hour: u32, minute: u32, second: u32) -> (r: bool)
    ensures
        r == (hour < 24 && minute < 60 && second < 60),
{
    chrono::NaiveTime::from_hms_opt(hour, minute, second).is_some()
}

/// Whether `y` is a leap year of the proleptic Gregorian calendar.
pub open spec fn is_leap_year(y: int) -> bool {
    (y % 4 == 0 && y % 100 != 0) || y % 400 == 0
}

/// The number of days of month `m` of year `y`.
pub open spec fn days_in_month(y: int, m: int) -> int {
    if m == 2 {
        if is_leap_year(y) {
            29
        } else {
            28
        }
    } else if m == 4 || m == 6 || m == 9 || m == 11 {
        30
    } else {
        31
    }
}

/// Whether year, month and day name a date that `chrono::NaiveDate` can hold.
pub open spec fn date_exists(y: int, m: int, d: int) -> bool {
    &&& -262143 <= y <= 262142
    &&& 1 <= m <= 12
    &&& 1 <= d <= days_in_month(y, m)
}

/// Calls `chrono::NaiveDate::from_ymd_opt` and tells whether it gives a date. Its
/// documentation says that it returns `None` when the calendar day does not exist,
/// the month or day is invalid, or the year is out of range; its source puts the
/// range at years -262143 to 262142.
#[verifier::external_body]
fn date_valid(year: i32, month: u32, day: u32) -> (r: bool)
    ensures
        r == date_exists(year as int, month as int, day as int),
{
    chrono::NaiveDate::from_ymd_opt(year, month, day).is_some()
}

/// The time of day in an `hhmmss[.ss]` field: only the first six bytes count, read as
/// hours, minutes and seconds. Errors carry those (at most six) bytes.
pub open spec fn time_of(b: Seq<u8>) -> Option<Result<NmeaTime, NmeaErrorView>> {
    if b.len() > 6 && !cuts_at(b, 6) {
        None
    } else {
        let s = if b.len() > 6 {
            b.take(6)
        } else {
            b
        };
        if s.len() < 2 || !cuts_at(s, 2) {
            None
        } else {
            match parse_unsigned(s.take(2), 10, 0xffff_ffff) {
                None => Some(Err(NmeaErrorView::TimeParse(s))),
                Some(h) => if s.len() < 4 || !cuts_at(s, 4) {
                    None
                } else {
                    match parse_unsigned(s.subrange(2, 4), 10, 0xffff_ffff) {
                        None => Some(Err(NmeaErrorView::TimeParse(s))),
                        Some(m) => if s.len() < 6 {
                            None
                        } else {
                            match parse_unsigned(s.subrange(4, 6), 10, 0xffff_ffff) {
                                None => Some(Err(NmeaErrorView::TimeParse(s))),
                                Some(sec) => if h < 24 && m < 60 && sec < 60 {
                                    Some(
                                        Ok(
                                            NmeaTime {
                                                hour: h as u32,
                                                minute: m as u32,
                                                second: sec as u32,
                                            },
                                        ),
                                    )
                                } else {
                                    Some(Err(NmeaErrorView::TimeParse(s)))
                                },
                            }
                        },
                    }
                },
            }
        }
    }
}

/// The time in a GGA or RMC time field: midnight when the field is empty.
pub open spec fn time_field(b: Seq<u8>) -> Option<Result<NmeaTime, NmeaErrorView>> {
    if b.len() == 0 {
        Some(Ok(NmeaTime { hour: 0, minute: 0, second: 0 }))
    } else {
        time_of(b)
    }
}

/// Whether bytes `0..len` of `b` may be cut at index `i`.
fn cuts(b: &[u8], len: usize, i: usize) -> (r: bool)
    requires
        len <= b@.len(),
        i <= len,
    ensures
        r == cuts_at(b@.take(len as int), i as int),
{
    i == len || !(0x80u8 <= b[i] && b[i] <= 0xbfu8)
}

/// Read the time of day from an `hhmmss[.ss]` field.
pub fn read_time(s: &str) -> (r: Option<Result<NmeaTime, NmeaError>>)
    ensures
        outcome_view(r) == time_of(s.spec_bytes()),
{
    let b = s.as_bytes();
    let n = b.len();
    proof {
        assert(b@.take(n as int) =~= b@);
    }
    if n > 6 && !cuts(b, n, 6) {
        return None;
    }
    let m: usize = if n > 6 {
        6
    } else {
        n
    };
    let ghost t = b@.take(m as int);
    proof {
        assert(t.take(m as int) =~= t);
        assert(b@.take(m as int) == t);
    }
    if m < 2 || !cuts(b, m, 2) {
        return None;
    }
    let h = parse_unsigned_in(b, 0, 2, 10, 0xffff_ffff);
    proof {
        assert(b@.subrange(0, 2) =~= t.take(2));
    }
    if h.is_none() {
        return Some(Err(NmeaError::TimeParse(substring_owned(s, 0, m))));
    }
    if m < 4 || !cuts(b, m, 4) {
        return None;
    }
    let mi = parse_unsigned_in(b, 2, 4, 10, 0xffff_ffff);
    proof {
        assert(b@.subrange(2, 4) =~= t.subrange(2, 4));
    }
    if mi.is_none() {
        return Some(Err(NmeaError::TimeParse(substring_owned(s, 0, m))));
    }
    if m < 6 {
        return None;
    }
    let se = parse_unsigned_in(b, 4, 6, 10, 0xffff_ffff);
    proof {
        assert(b@.subrange(4, 6) =~= t.subrange(4, 6));
    }
    if se.is_none() {
        return Some(Err(NmeaError::TimeParse(substring_owned(s, 0, m))));
    }
    let hour = h.unwrap();
    let minute = mi.unwrap();
    let second = se.unwrap();
    if time_exists(hour, minute, second) {
        Some(Ok(NmeaTime { hour, minute, second }))
    } else {
        Some(Err(NmeaError::TimeParse(substring_owned(s, 0, m))))
    }
}

/// The date in a `ddmmyy` field: two-digit years above 80 fall in the 1900s, the
/// others in the 2000s. Errors carry the whole field.
pub open spec fn date_of(b: Seq<u8>) -> Option<Result<NmeaDate, NmeaErrorView>> {
    if b.len() < 6 {
        Some(Err(NmeaErrorView::DateParse(b)))
    } else if !cuts_at(b, 2) {
        None
    } else {
        match parse_unsigned(b.take(2), 10, 0xffff_ffff) {
            None => Some(Err(NmeaErrorView::DateParse(b))),
            Some(d) => if !cuts_at(b, 4) {
                None
            } else {
                match parse_unsigned(b.subrange(2, 4), 10, 0xffff_ffff) {
                    None => Some(Err(NmeaErrorView::DateParse(b))),
                    Some(m) => if !cuts_at(b, 6) {
                        None
                    } else {
                        match parse_i32(b.subrange(4, 6)) {
                            None => Some(Err(NmeaErrorView::DateParse(b))),
                            Some(yy) => {
                                let y = if yy > 80 {
                                    1900 + yy
                                } else {
                                    2000 + yy
                                };
                                if date_exists(y, m as int, d as int) {
                                    Some(
                                        Ok(NmeaDate { year: y as i32, month: m as u32, day: d as u32 }),
                                    )
                                } else {
                                    Some(Err(NmeaErrorView::DateParse(b)))
                                }
                            },
                        }
                    },
                }
            },
        }
    }
}

/// A two-byte signed number lies between -9 and 99.
pub(crate) proof fn lemma_two_byte_year(w: Seq<u8>)
    requires
        w.len() == 2,
    ensures
        parse_i32(w) matches Some(v) ==> -9 <= v <= 99,
{
    reveal_with_fuel(crate::text::digits_value, 3);
    if w[0] == 45u8 || w[0] == 43u8 {
        assert(w.drop_first().drop_last().len() == 0);
    } else {
        assert(w.drop_last().drop_last().len() == 0);
        assert(w.drop_last().last() == w[0]);
    }
}

/// Read the date from a `ddmmyy` field.
pub fn read_date(s: &str) -> (r: Option<Result<NmeaDate, NmeaError>>)
    ensures
        outcome_view(r) == date_of(s.spec_bytes()),
{
    let b = s.as_bytes();
    let n = b.len();
    proof {
        assert(b@.take(n as int) =~= b@);
        assert(b@.subrange(0, n as int) =~= b@);
    }
    if n < 6 {
        return Some(Err(NmeaError::DateParse(substring_owned(s, 0, n))));
    }
    if !cuts(b, n, 2) {
        return None;
    }
    proof {
        assert(b@.subrange(0, 2) =~= b@.take(2));
    }
    let d = match parse_unsigned_in(b, 0, 2, 10, 0xffff_ffff) {
        Some(v) => v,
        None => {
            return Some(Err(NmeaError::DateParse(substring_owned(s, 0, n))));
        },
    };
    if !cuts(b, n, 4) {
        return None;
    }
    let m = match parse_unsigned_in(b, 2, 4, 10, 0xffff_ffff) {
        Some(v) => v,
        None => {
            return Some(Err(NmeaError::DateParse(substring_owned(s, 0, n))));
        },
    };
    if !cuts(b, n, 6) {
        return None;
    }
    let yy = match parse_i32_in(b, 4, 6) {
        Some(v) => v,
        None => {
            return Some(Err(NmeaError::DateParse(substring_owned(s, 0, n))));
        },
    };
    proof {
        lemma_two_byte_year(b@.subrange(4, 6));
    }
    let y: i32 = if yy > 80 {
        1900 + yy
    } else {
        2000 + yy
    };
    if date_valid(y, m, d) {
        Some(Ok(NmeaDate { year: y, month: m, day: d }))
    } else {
        Some(Err(NmeaError::DateParse(substring_owned(s, 0, n))))
    }
}

/// The index of the first byte of `b` equal to `x`.
pub open spec fn first_index_of(b: Seq<u8>, x: u8) -> Option<int>
    decreases b.len(),
{
    if b.len() == 0 {
        None
    } else if b[0] == x {
        Some(0)
    } else {
        match first_index_of(b.drop_first(), x) {
            Some(i) => Some(i + 1),
            None => None,
        }
    }
}

/// `first_index_of` is the first index of `x`, found by scanning.
pub proof fn lemma_first_index_of(b: Seq<u8>, x: u8, p: int)
    requires
        0 <= p <= b.len(),
        forall|j: int| 0 <= j < p ==> b[j] != x,
        p == b.len() || b[p] == x,
    ensures
        first_index_of(b, x) == (if p < b.len() {
            Some(p)
        } else {
            None::<int>
        }),
    decreases b.len(),
{
    if b.len() > 0 && p > 0 {
        assert(b[0] != x);
        assert forall|j: int| 0 <= j < p - 1 implies b.drop_first()[j] != x by {
            assert(b.drop_first()[j] == b[j + 1]);
        }
        lemma_first_index_of(b.drop_first(), x, p - 1);
    }
}

/// The length of the part of a coordinate before its first `.`.
pub open spec fn int_len(b: Seq<u8>) -> int {
    match first_index_of(b, 46u8) {
        Some(p) => p,
        None => b.len() as int,
    }
}

/// The texts of a coordinate `DDMM.MMMM` (latitude) or `DDDMM.MMMM` (longitude):
/// degrees are the first two or three bytes, minutes are the rest, `None` when
/// there is no rest (zero minutes).
#[derive(Debug)]
pub struct CoordinateText {
    pub degrees: String,
    pub minutes: Option<String>,
}

/// A coordinate's texts as bytes.
pub struct CoordinateView {
    pub degrees: Seq<u8>,
    pub minutes: Option<Seq<u8>>,
}

impl View for CoordinateText {
    type V = CoordinateView;

    open spec fn view(&self) -> CoordinateView {
        CoordinateView { degrees: text(self.degrees), minutes: opt_text(self.minutes) }
    }
}

/// The number of degree digits of a latitude (2) or a longitude (3).
pub open spec fn degree_digits(is_latitude: bool) -> int {
    if is_latitude {
        2
    } else {
        3
    }
}

/// How a coordinate field is read: it must not be empty, and the part before its
/// first `.` must hold the degree digits; the degrees and the minutes are then read
/// as numbers, in that order.
pub open spec fn coordinate_of(b: Seq<u8>, is_latitude: bool) -> StagedView<CoordinateView> {
    let k = degree_digits(is_latitude);
    if b.len() == 0 {
        staged_end(Some(Err(NmeaErrorView::InvalidCoordinate(utf8("empty coordinate"@)))))
    } else if int_len(b) < k {
        staged_end(
            Some(
                Err(
                    NmeaErrorView::InvalidCoordinate(
                        utf8("int part too short: '"@ + decode_utf8(b) + "'"@),
                    ),
                ),
            ),
        )
    } else if !cuts_at(b, k) {
        staged_end(None)
    } else if b.len() == k {
        StagedView {
            numbers: seq![b.take(k)],
            end: Some(Ok(CoordinateView { degrees: b.take(k), minutes: None })),
        }
    } else {
        StagedView {
            numbers: seq![b.take(k), b.skip(k)],
            end: Some(Ok(CoordinateView { degrees: b.take(k), minutes: Some(b.skip(k)) })),
        }
    }
}

/// Read a coordinate field, adding the texts that must be numbers to `numbers`.
fn read_coordinate(value: &str, is_latitude: bool, numbers: &mut Vec<String>) -> (r: Option<
    Result<CoordinateText, NmeaError>,
>)
    ensures
        texts(final(numbers)@) == texts(old(numbers)@) + coordinate_of(
            value.spec_bytes(),
            is_latitude,
        ).numbers,
        outcome_view(r) == coordinate_of(value.spec_bytes(), is_latitude).end,
{
    let b = value.as_bytes();
    let n = b.len();
    let ghost old_numbers = numbers@;
    proof {
        assert(texts(old_numbers) + Seq::<Seq<u8>>::empty() =~= texts(old_numbers));
        assert(b@.take(n as int) =~= b@);
    }
    if n == 0 {
        return Some(Err(NmeaError::InvalidCoordinate(String::from_str("empty coordinate"))));
    }
    let mut p: usize = 0;
    while p < n && b[p] != 46u8
        invariant
            p <= n == b@.len(),
            forall|j: int| 0 <= j < p ==> b@[j] != 46u8,
        decreases n - p,
    {
        p = p + 1;
    }
    proof {
        lemma_first_index_of(b@, 46u8, p as int);
    }
    let k: usize = if is_latitude {
        2
    } else {
        3
    };
    if p < k {
        let mut m = String::from_str("int part too short: '");
        m.append(value);
        m.append("'");
        return Some(Err(NmeaError::InvalidCoordinate(m)));
    }
    if !cuts(b, n, k) {
        return None;
    }
    let degrees = substring_owned(value, 0, k);
    proof {
        assert(b@.subrange(0, k as int) =~= b@.take(k as int));
    }
    numbers.push(degrees.clone());
    proof {
        lemma_texts_push(old_numbers, degrees);
    }
    if n == k {
        proof {
            assert(texts(numbers@) =~= texts(old_numbers) + seq![b@.take(k as int)]);
        }
        return Some(Ok(CoordinateText { degrees, minutes: None }));
    }
    let minutes = substring_owned(value, k, n);
    proof {
        assert(b@.subrange(k as int, n as int) =~= b@.skip(k as int));
    }
    let ghost mid = numbers@;
    numbers.push(minutes.clone());
    proof {
        lemma_texts_push(mid, minutes);
        assert(texts(numbers@) =~= texts(old_numbers) + seq![b@.take(k as int), b@.skip(k as int)]);
    }
    Some(Ok(CoordinateText { degrees, minutes: Some(minutes) }))
}

/// Split an NMEA coordinate field (`DDMM.MMMM` for a latitude, `DDDMM.MMMM` for a
/// longitude) into its degrees and minutes texts. The coordinate in decimal degrees
/// is the degrees plus the minutes (zero when absent) divided by 60.
pub fn parse_nmea_coordinate(value: &str, is_latitude: bool) -> (r: Staged<CoordinateText>)
    ensures
        r@ == coordinate_of(value.spec_bytes(), is_latitude),
{
    let mut numbers: Vec<String> = Vec::new();
    let end = read_coordinate(value, is_latitude, &mut numbers);
    proof {
        assert(texts(numbers@) =~= coordinate_of(value.spec_bytes(), is_latitude).numbers);
    }
    Staged { numbers, end }
}

/// The texts that an NMEA number field adds to the numbers to read: none when empty.
pub open spec fn number_texts(b: Seq<u8>) -> Seq<Seq<u8>> {
    if b.len() == 0 {
        Seq::empty()
    } else {
        seq![b]
    }
}

/// The value of an NMEA number field: `None` for an empty field, which reads as zero.
pub open spec fn number_value(b: Seq<u8>) -> Option<Seq<u8>> {
    if b.len() == 0 {
        None
    } else {
        Some(b)
    }
}

/// Read a number field, adding its text (if any) to `numbers`.
fn read_number(field: &String, numbers: &mut Vec<String>) -> (r: Option<String>)
    ensures
        texts(final(numbers)@) == texts(old(numbers)@) + number_texts(text(*field)),
        opt_text(r) == number_value(text(*field)),
{
    let ghost old_numbers = numbers@;
    if field.as_str().as_bytes().len() == 0 {
        assert(texts(old_numbers) + Seq::<Seq<u8>>::empty() =~= texts(old_numbers));
        None
    } else {
        numbers.push(field.clone());
        proof {
            lemma_texts_push(old_numbers, *field);
            assert(texts(numbers@) =~= texts(old_numbers) + seq![text(*field)]);
        }
        Some(field.clone())
    }
}

/// Read a GGA or RMC time field.
fn read_time_field(s: &str) -> (r: Option<Result<NmeaTime, NmeaError>>)
    ensures
        outcome_view(r) == time_field(s.spec_bytes()),
{
    if s.as_bytes().len() == 0 {
        Some(Ok(NmeaTime { hour: 0, minute: 0, second: 0 }))
    } else {
        read_time(s)
    }
}

/// Whether a field holds exactly the text `lit`.
fn field_is(field: &String, lit: &str) -> (r: bool)
    ensures
        r == (text(*field) == lit.spec_bytes()),
{
    same_text(field.as_str(), lit)
}

/// GGA: GPS fix data.
#[derive(Debug)]
pub struct GgaFields {
    pub time: NmeaTime,
    pub lat: CoordinateText,
    pub lat_south: bool,
    pub lon: CoordinateText,
    pub lon_west: bool,
    pub fix_quality: u8,
    pub satellites: u8,
    pub hdop: Option<String>,
    pub altitude: Option<String>,
}

/// GGA fields as bytes.
pub struct GgaView {
    pub time: NmeaTime,
    pub lat: CoordinateView,
    pub lat_south: bool,
    pub lon: CoordinateView,
    pub lon_west: bool,
    pub fix_quality: u8,
    pub satellites: u8,
    pub hdop: Option<Seq<u8>>,
    pub altitude: Option<Seq<u8>>,
}

impl View for GgaFields {
    type V = GgaView;

    open spec fn view(&self) -> GgaView {
        GgaView {
            time: self.time,
            lat: self.lat@,
            lat_south: self.lat_south,
            lon: self.lon@,
            lon_west: self.lon_west,
            fix_quality: self.fix_quality,
            satellites: self.satellites,
            hdop: opt_text(self.hdop),
            altitude: opt_text(self.altitude),
        }
    }
}

/// How the fields of a GGA sentence are read: at least nine fields (time, latitude,
/// N/S, longitude, E/W, fix quality, satellites, HDOP, altitude), read in that order;
/// a latitude marked `S` and a longitude marked `W` are negative.
pub open spec fn gga_of(f: Seq<Seq<u8>>) -> StagedView<GgaView> {
    if f.len() < 9 {
        staged_end(Some(Err(NmeaErrorView::MissingFields(utf8("GGA"@)))))
    } else {
        match time_field(f[0]) {
            None => staged_end(None),
            Some(Err(e)) => staged_end(Some(Err(e))),
            Some(Ok(time)) => {
                let lat = coordinate_of(f[1], true);
                match lat.end {
                    Some(Ok(lat_v)) => {
                        let lon = coordinate_of(f[3], false);
                        match lon.end {
                            Some(Ok(lon_v)) => {
                                let before = lat.numbers + lon.numbers;
                                match parse_unsigned(f[5], 10, 255) {
                                    None => StagedView {
                                        numbers: before,
                                        end: Some(Err(NmeaErrorView::InvalidFixQuality(f[5]))),
                                    },
                                    Some(q) => match parse_unsigned(f[6], 10, 255) {
                                        None => StagedView {
                                            numbers: before,
                                            end: Some(Err(NmeaErrorView::FloatParse(f[6]))),
                                        },
                                        Some(sats) => StagedView {
                                            numbers: before + number_texts(f[7]) + number_texts(f[8]),
                                            end: Some(
                                                Ok(
                                                    GgaView {
                                                        time,
                                                        lat: lat_v,
                                                        lat_south: f[2] == utf8("S"@),
                                                        lon: lon_v,
                                                        lon_west: f[4] == utf8("W"@),
                                                        fix_quality: q as u8,
                                                        satellites: sats as u8,
                                                        hdop: number_value(f[7]),
                                                        altitude: number_value(f[8]),
                                                    },
                                                ),
                                            ),
                                        },
                                    },
                                }
                            },
                            _ => StagedView { numbers: lat.numbers + lon.numbers, end: failed(lon.end) },
                        }
                    },
                    _ => StagedView { numbers: lat.numbers, end: failed(lat.end) },
                }
            },
        }
    }
}

/// Read the fields of a GGA sentence.
pub fn read_gga(fields: &Vec<String>) -> (r: Staged<GgaFields>)
    ensures
        r@ == gga_of(texts(fields@)),
{
    let ghost f = texts(fields@);
    let mut numbers: Vec<String> = Vec::new();
    proof {
        assert(texts(numbers@) =~= Seq::<Seq<u8>>::empty());
    }
    if fields.len() < 9 {
        return Staged { numbers, end: Some(Err(NmeaError::MissingFields(String::from_str("GGA")))) };
    }
    let time = match read_time_field(fields[0].as_str()) {
        None => {
            return Staged { numbers, end: None };
        },
        Some(Err(e)) => {
            return Staged { numbers, end: Some(Err(e)) };
        },
        Some(Ok(t)) => t,
    };
    let lat = match read_coordinate(fields[1].as_str(), true, &mut numbers) {
        None => {
            return Staged { numbers, end: None };
        },
        Some(Err(e)) => {
            return Staged { numbers, end: Some(Err(e)) };
        },
        Some(Ok(c)) => c,
    };
    let lon = match read_coordinate(fields[3].as_str(), false, &mut numbers) {
        None => {
            return Staged { numbers, end: None };
        },
        Some(Err(e)) => {
            return Staged { numbers, end: Some(Err(e)) };
        },
        Some(Ok(c)) => c,
    };
    let fb = fields[5].as_str().as_bytes();
    assert(fb@.subrange(0, fb@.len() as int) =~= fb@);
    let fix_quality = match parse_unsigned_in(fb, 0, fb.len(), 10, 255) {
        Some(v) => v as u8,
        None => {
            return Staged {
                numbers,
                end: Some(Err(NmeaError::InvalidFixQuality(fields[5].clone()))),
            };
        },
    };
    let sb = fields[6].as_str().as_bytes();
    assert(sb@.subrange(0, sb@.len() as int) =~= sb@);
    let satellites = match parse_unsigned_in(sb, 0, sb.len(), 10, 255) {
        Some(v) => v as u8,
        None => {
            return Staged { numbers, end: Some(Err(NmeaError::FloatParse(fields[6].clone()))) };
        },
    };
    let hdop = read_number(&fields[7], &mut numbers);
    let altitude = read_number(&fields[8], &mut numbers);
    let lat_south = field_is(&fields[2], "S");
    let lon_west = field_is(&fields[4], "W");
    Staged {
        numbers,
        end: Some(
            Ok(
                GgaFields {
                    time,
                    lat,
                    lat_south,
                    lon,
                    lon_west,
                    fix_quality,
                    satellites,
                    hdop,
                    altitude,
                },
            ),
        ),
    }
}

/// RMC: recommended minimum navigation information.
#[derive(Debug)]
pub struct RmcFields {
    pub time: NmeaTime,
    pub date: NmeaDate,
    pub lat: CoordinateText,
    pub lat_south: bool,
    pub lon: CoordinateText,
    pub lon_west: bool,
    pub speed_knots: Option<String>,
    pub course: Option<String>,
}

/// RMC fields as bytes.
pub struct RmcView {
    pub time: NmeaTime,
    pub date: NmeaDate,
    pub lat: CoordinateView,
    pub lat_south: bool,
    pub lon: CoordinateView,
    pub lon_west: bool,
    pub speed_knots: Option<Seq<u8>>,
    pub course: Option<Seq<u8>>,
}

impl View for RmcFields {
    type V = RmcView;

    open spec fn view(&self) -> RmcView {
        RmcView {
            time: self.time,
            date: self.date,
            lat: self.lat@,
            lat_south: self.lat_south,
            lon: self.lon@,
            lon_west: self.lon_west,
            speed_knots: opt_text(self.speed_knots),
            course: opt_text(self.course),
        }
    }
}

/// How the fields of an RMC sentence are read: at least nine fields (time, status,
/// latitude, N/S, longitude, E/W, speed, course, date); the time, the coordinates,
/// speed and course, then the date are read in that order.
pub open spec fn rmc_of(f: Seq<Seq<u8>>) -> StagedView<RmcView> {
    if f.len() < 9 {
        staged_end(Some(Err(NmeaErrorView::MissingFields(utf8("RMC"@)))))
    } else {
        match time_field(f[0]) {
            None => staged_end(None),
            Some(Err(e)) => staged_end(Some(Err(e))),
            Some(Ok(time)) => {
                let lat = coordinate_of(f[2], true);
                match lat.end {
                    Some(Ok(lat_v)) => {
                        let lon = coordinate_of(f[4], false);
                        match lon.end {
                            Some(Ok(lon_v)) => {
                                let numbers = lat.numbers + lon.numbers + number_texts(f[6])
                                    + number_texts(f[7]);
                                match date_of(f[8]) {
                                    None => StagedView { numbers, end: None },
                                    Some(Err(e)) => StagedView { numbers, end: Some(Err(e)) },
                                    Some(Ok(date)) => StagedView {
                                        numbers,
                                        end: Some(
                                            Ok(
                                                RmcView {
                                                    time,
                                                    date,
                                                    lat: lat_v,
                                                    lat_south: f[3] == utf8("S"@),
                                                    lon: lon_v,
                                                    lon_west: f[5] == utf8("W"@),
                                                    speed_knots: number_value(f[6]),
                                                    course: number_value(f[7]),
                                                },
                                            ),
                                        ),
                                    },
                                }
                            },
                            _ => StagedView { numbers: lat.numbers + lon.numbers, end: failed(lon.end) },
                        }
                    },
                    _ => StagedView { numbers: lat.numbers, end: failed(lat.end) },
                }
            },
        }
    }
}

/// Read the fields of an RMC sentence.
pub fn read_rmc(fields: &Vec<String>) -> (r: Staged<RmcFields>)
    ensures
        r@ == rmc_of(texts(fields@)),
{
    let mut numbers: Vec<String> = Vec::new();
    proof {
        assert(texts(numbers@) =~= Seq::<Seq<u8>>::empty());
    }
    if fields.len() < 9 {
        return Staged { numbers, end: Some(Err(NmeaError::MissingFields(String::from_str("RMC")))) };
    }
    let time = match read_time_field(fields[0].as_str()) {
        None => {
            return Staged { numbers, end: None };
        },
        Some(Err(e)) => {
            return Staged { numbers, end: Some(Err(e)) };
        },
        Some(Ok(t)) => t,
    };
    let lat = match read_coordinate(fields[2].as_str(), true, &mut numbers) {
        None => {
            return Staged { numbers, end: None };
        },
        Some(Err(e)) => {
            return Staged { numbers, end: Some(Err(e)) };
        },
        Some(Ok(c)) => c,
    };
    let lon = match read_coordinate(fields[4].as_str(), false, &mut numbers) {
        None => {
            return Staged { numbers, end: None };
        },
        Some(Err(e)) => {
            return Staged { numbers, end: Some(Err(e)) };
        },
        Some(Ok(c)) => c,
    };
    let speed_knots = read_number(&fields[6], &mut numbers);
    let course = read_number(&fields[7], &mut numbers);
    let date = match read_date(fields[8].as_str()) {
        None => {
            return Staged { numbers, end: None };
        },
        Some(Err(e)) => {
            return Staged { numbers, end: Some(Err(e)) };
        },
        Some(Ok(d)) => d,
    };
    let lat_south = field_is(&fields[3], "S");
    let lon_west = field_is(&fields[5], "W");
    Staged {
        numbers,
        end: Some(
            Ok(RmcFields { time, date, lat, lat_south, lon, lon_west, speed_knots, course }),
        ),
    }
}

/// DPT: depth of water.
#[derive(Debug)]
pub struct DptFields {
    pub depth_meters: Option<String>,
    pub offset: Option<String>,
}

/// DPT fields as bytes.
pub struct DptView {
    pub depth_meters: Option<Seq<u8>>,
    pub offset: Option<Seq<u8>>,
}

impl View for DptFields {
    type V = DptView;

    open spec fn view(&self) -> DptView {
        DptView { depth_meters: opt_text(self.depth_meters), offset: opt_text(self.offset) }
    }
}

/// Whether field `i` of `f` is present and not empty.
pub open spec fn has_field(f: Seq<Seq<u8>>, i: int) -> bool {
    f.len() > i && f[i].len() > 0
}

/// How the fields of a DPT sentence are read: a depth, then an offset if there is a
/// second, non-empty field (zero otherwise).
pub open spec fn dpt_of(f: Seq<Seq<u8>>) -> StagedView<DptView> {
    if f.len() == 0 {
        staged_end(Some(Err(NmeaErrorView::MissingFields(utf8("DPT"@)))))
    } else {
        StagedView {
            numbers: number_texts(f[0]) + (if has_field(f, 1) {
                seq![f[1]]
            } else {
                Seq::empty()
            }),
            end: Some(
                Ok(
                    DptView {
                        depth_meters: number_value(f[0]),
                        offset: if has_field(f, 1) {
                            Some(f[1])
                        } else {
                            None
                        },
                    },
                ),
            ),
        }
    }
}

/// Whether field `i` is present and not empty.
fn present(fields: &Vec<String>, i: usize) -> (r: bool)
    ensures
        r == has_field(texts(fields@), i as int),
{
    i < fields.len() && fields[i].as_str().as_bytes().len() > 0
}

/// Read the fields of a DPT sentence.
pub fn read_dpt(fields: &Vec<String>) -> (r: Staged<DptFields>)
    ensures
        r@ == dpt_of(texts(fields@)),
{
    let mut numbers: Vec<String> = Vec::new();
    proof {
        assert(texts(numbers@) =~= Seq::<Seq<u8>>::empty());
    }
    if fields.len() == 0 {
        return Staged { numbers, end: Some(Err(NmeaError::MissingFields(String::from_str("DPT")))) };
    }
    let depth_meters = read_number(&fields[0], &mut numbers);
    let offset = if present(fields, 1) {
        read_number(&fields[1], &mut numbers)
    } else {
        None
    };
    proof {
        let f = texts(fields@);
        if !has_field(f, 1) {
            assert(number_texts(f[0]) + Seq::<Seq<u8>>::empty() =~= number_texts(f[0]));
        }
    }
    Staged { numbers, end: Some(Ok(DptFields { depth_meters, offset })) }
}

/// VHW: water speed and heading.
#[derive(Debug)]
pub struct VhwFields {
    pub heading_true: Option<String>,
    pub heading_magnetic: Option<String>,
    pub speed_knots: Option<String>,
}

/// VHW fields as bytes.
pub struct VhwView {
    pub heading_true: Option<Seq<u8>>,
    pub heading_magnetic: Option<Seq<u8>>,
    pub speed_knots: Option<Seq<u8>>,
}

impl View for VhwFields {
    type V = VhwView;

    open spec fn view(&self) -> VhwView {
        VhwView {
            heading_true: opt_text(self.heading_true),
            heading_magnetic: opt_text(self.heading_magnetic),
            speed_knots: opt_text(self.speed_knots),
        }
    }
}

/// How the fields of a VHW sentence are read: at least five fields (true heading, T,
/// magnetic heading, M, speed); an empty heading is absent, an empty speed is zero.
pub open spec fn vhw_of(f: Seq<Seq<u8>>) -> StagedView<VhwView> {
    if f.len() < 5 {
        staged_end(Some(Err(NmeaErrorView::MissingFields(utf8("VHW"@)))))
    } else {
        StagedView {
            numbers: number_texts(f[0]) + number_texts(f[2]) + number_texts(f[4]),
            end: Some(
                Ok(
                    VhwView {
                        heading_true: number_value(f[0]),
                        heading_magnetic: number_value(f[2]),
                        speed_knots: number_value(f[4]),
                    },
                ),
            ),
        }
    }
}

/// Read the fields of a VHW sentence.
pub fn read_vhw(fields: &Vec<String>) -> (r: Staged<VhwFields>)
    ensures
        r@ == vhw_of(texts(fields@)),
{
    let mut numbers: Vec<String> = Vec::new();
    proof {
        assert(texts(numbers@) =~= Seq::<Seq<u8>>::empty());
    }
    if fields.len() < 5 {
        return Staged { numbers, end: Some(Err(NmeaError::MissingFields(String::from_str("VHW")))) };
    }
    let heading_true = read_number(&fields[0], &mut numbers);
    let heading_magnetic = read_number(&fields[2], &mut numbers);
    let speed_knots = read_number(&fields[4], &mut numbers);
    Staged { numbers, end: Some(Ok(VhwFields { heading_true, heading_magnetic, speed_knots })) }
}

/// A number text with the sign that a direction field gives it.
#[derive(Debug)]
pub struct SignedText {
    pub text: String,
    pub negative: bool,
}

/// A signed number text as bytes.
pub struct SignedView {
    pub text: Seq<u8>,
    pub negative: bool,
}

impl View for SignedText {
    type V = SignedView;

    open spec fn view(&self) -> SignedView {
        SignedView { text: text(self.text), negative: self.negative }
    }
}

/// HDG: heading, deviation and variation.
#[derive(Debug)]
pub struct HdgFields {
    pub heading: String,
    pub deviation: Option<SignedText>,
    pub variation: Option<SignedText>,
}

/// HDG fields as bytes.
pub struct HdgView {
    pub heading: Seq<u8>,
    pub deviation: Option<SignedView>,
    pub variation: Option<SignedView>,
}

/// An optional signed text as bytes.
pub open spec fn opt_signed(o: Option<SignedText>) -> Option<SignedView> {
    match o {
        Some(s) => Some(s@),
        None => None,
    }
}

impl View for HdgFields {
    type V = HdgView;

    open spec fn view(&self) -> HdgView {
        HdgView {
            heading: text(self.heading),
            deviation: opt_signed(self.deviation),
            variation: opt_signed(self.variation),
        }
    }
}

/// The signed value in field `i` of an HDG sentence, whose direction is in field
/// `i + 1`: absent when the field is missing or empty, negative when the direction is `W`.
pub open spec fn hdg_signed(f: Seq<Seq<u8>>, i: int) -> Option<SignedView> {
    if has_field(f, i) {
        Some(SignedView { text: f[i], negative: f.len() > i + 1 && f[i + 1] == utf8("W"@) })
    } else {
        None
    }
}

/// The text that an optional HDG value adds to the numbers to read.
pub open spec fn signed_texts(o: Option<SignedView>) -> Seq<Seq<u8>> {
    match o {
        Some(v) => seq![v.text],
        None => Seq::empty(),
    }
}

/// How the fields of an HDG sentence are read: a non-empty heading, then an optional
/// deviation (fields 1 and 2) and an optional variation (fields 3 and 4).
pub open spec fn hdg_of(f: Seq<Seq<u8>>) -> StagedView<HdgView> {
    if f.len() == 0 || f[0].len() == 0 {
        staged_end(Some(Err(NmeaErrorView::MissingFields(utf8("HDG"@)))))
    } else {
        StagedView {
            numbers: seq![f[0]] + signed_texts(hdg_signed(f, 1)) + signed_texts(hdg_signed(f, 3)),
            end: Some(
                Ok(
                    HdgView {
                        heading: f[0],
                        deviation: hdg_signed(f, 1),
                        variation: hdg_signed(f, 3),
                    },
                ),
            ),
        }
    }
}

/// Read the signed value in field `i`, with its direction in field `i + 1`.
fn read_signed(fields: &Vec<String>, i: usize, numbers: &mut Vec<String>) -> (r: Option<SignedText>)
    requires
        i < 4,
    ensures
        texts(final(numbers)@) == texts(old(numbers)@) + signed_texts(
            hdg_signed(texts(fields@), i as int),
        ),
        opt_signed(r) == hdg_signed(texts(fields@), i as int),
{
    let ghost old_numbers = numbers@;
    if present(fields, i) {
        numbers.push(fields[i].clone());
        proof {
            lemma_texts_push(old_numbers, fields@[i as int]);
            assert(texts(numbers@) =~= texts(old_numbers) + seq![text(fields@[i as int])]);
        }
        let negative = i + 1 < fields.len() && field_is(&fields[i + 1], "W");
        Some(SignedText { text: fields[i].clone(), negative })
    } else {
        assert(texts(old_numbers) + Seq::<Seq<u8>>::empty() =~= texts(old_numbers));
        None
    }
}

/// Read the fields of an HDG sentence.
pub fn read_hdg(fields: &Vec<String>) -> (r: Staged<HdgFields>)
    ensures
        r@ == hdg_of(texts(fields@)),
{
    let mut numbers: Vec<String> = Vec::new();
    proof {
        assert(texts(numbers@) =~= Seq::<Seq<u8>>::empty());
    }
    if fields.len() == 0 || fields[0].as_str().as_bytes().len() == 0 {
        return Staged { numbers, end: Some(Err(NmeaError::MissingFields(String::from_str("HDG")))) };
    }
    numbers.push(fields[0].clone());
    proof {
        lemma_texts_push(Seq::empty(), fields@[0]);
        assert(texts(numbers@) =~= seq![text(fields@[0])]);
    }
    let deviation = read_signed(fields, 1, &mut numbers);
    let variation = read_signed(fields, 3, &mut numbers);
    Staged { numbers, end: Some(Ok(HdgFields { heading: fields[0].clone(), deviation, variation })) }
}

/// The fields of a parsed NMEA sentence, by sentence type; `Custom` holds a sentence
/// of any other type as it was framed.
#[derive(Debug)]
pub enum NmeaFields {
    Gga(GgaFields),
    Rmc(RmcFields),
    Dpt(DptFields),
    Vhw(VhwFields),
    Hdg(HdgFields),
    Custom(NmeaSentence),
}

/// The fields of a parsed NMEA sentence as bytes.
pub enum NmeaFieldsView {
    Gga(GgaView),
    Rmc(RmcView),
    Dpt(DptView),
    Vhw(VhwView),
    Hdg(HdgView),
    Custom(SentenceView),
}

impl View for NmeaFields {
    type V = NmeaFieldsView;

    open spec fn view(&self) -> NmeaFieldsView {
        match self {
            NmeaFields::Gga(v) => NmeaFieldsView::Gga(v@),
            NmeaFields::Rmc(v) => NmeaFieldsView::Rmc(v@),
            NmeaFields::Dpt(v) => NmeaFieldsView::Dpt(v@),
            NmeaFields::Vhw(v) => NmeaFieldsView::Vhw(v@),
            NmeaFields::Hdg(v) => NmeaFieldsView::Hdg(v@),
            NmeaFields::Custom(v) => NmeaFieldsView::Custom(v@),
        }
    }
}

/// A staged parse whose successful end is passed through `f`.
pub open spec fn staged_into<V, W>(s: StagedView<V>, f: spec_fn(V) -> W) -> StagedView<W> {
    StagedView {
        numbers: s.numbers,
        end: match s.end {
            Some(Ok(v)) => Some(Ok(f(v))),
            Some(Err(e)) => Some(Err(e)),
            None => None,
        },
    }
}

/// How the fields of a framed sentence are read, by its sentence type.
pub open spec fn sentence_fields(raw: SentenceView) -> StagedView<NmeaFieldsView> {
    let ty = raw.sentence_type;
    if ty == utf8("GGA"@) {
        staged_into(gga_of(raw.fields), |v: GgaView| NmeaFieldsView::Gga(v))
    } else if ty == utf8("RMC"@) {
        staged_into(rmc_of(raw.fields), |v: RmcView| NmeaFieldsView::Rmc(v))
    } else if ty == utf8("DPT"@) {
        staged_into(dpt_of(raw.fields), |v: DptView| NmeaFieldsView::Dpt(v))
    } else if ty == utf8("VHW"@) {
        staged_into(vhw_of(raw.fields), |v: VhwView| NmeaFieldsView::Vhw(v))
    } else if ty == utf8("HDG"@) {
        staged_into(hdg_of(raw.fields), |v: HdgView| NmeaFieldsView::Hdg(v))
    } else {
        staged_end(Some(Ok(NmeaFieldsView::Custom(raw))))
    }
}

/// How a sentence is read: framed after trimming (`t` holds the trimmed bytes), then
/// its fields by sentence type.
pub open spec fn nmea_fields_of(t: Seq<u8>) -> StagedView<NmeaFieldsView> {
    match frame(t) {
        None => staged_end(None),
        Some(Err(e)) => staged_end(Some(Err(e))),
        Some(Ok(raw)) => sentence_fields(raw),
    }
}

/// Parse a full NMEA 0183 sentence, such as
/// `$GPGGA,123519,4807.038,N,01131.000,E,1,08,0.9,545.4,M,...*47`, into the fields of
/// its sentence type, listing the texts that must be decimal numbers.
pub fn parse_nmea_fields(sentence: &str) -> (r: Staged<NmeaFields>)
    ensures
        r@ == nmea_fields_of(utf8(trimmed(sentence@))),
{
    let mut none: Vec<String> = Vec::new();
    proof {
        assert(texts(none@) =~= Seq::<Seq<u8>>::empty());
    }
    let raw = match parse_nmea_sentence(sentence) {
        None => {
            return Staged { numbers: none, end: None };
        },
        Some(Err(e)) => {
            return Staged { numbers: none, end: Some(Err(e)) };
        },
        Some(Ok(raw)) => raw,
    };
    let ty = raw.sentence_type.as_str();
    if same_text(ty, "GGA") {
        let g = read_gga(&raw.fields);
        Staged {
            numbers: g.numbers,
            end: match g.end {
                Some(Ok(v)) => Some(Ok(NmeaFields::Gga(v))),
                Some(Err(e)) => Some(Err(e)),
                None => None,
            },
        }
    } else if same_text(ty, "RMC") {
        let g = read_rmc(&raw.fields);
        Staged {
            numbers: g.numbers,
            end: match g.end {
                Some(Ok(v)) => Some(Ok(NmeaFields::Rmc(v))),
                Some(Err(e)) => Some(Err(e)),
                None => None,
            },
        }
    } else if same_text(ty, "DPT") {
        let g = read_dpt(&raw.fields);
        Staged {
            numbers: g.numbers,
            end: match g.end {
                Some(Ok(v)) => Some(Ok(NmeaFields::Dpt(v))),
                Some(Err(e)) => Some(Err(e)),
                None => None,
            },
        }
    } else if same_text(ty, "VHW") {
        let g = read_vhw(&raw.fields);
        Staged {
            numbers: g.numbers,
            end: match g.end {
                Some(Ok(v)) => Some(Ok(NmeaFields::Vhw(v))),
                Some(Err(e)) => Some(Err(e)),
                None => None,
            },
        }
    } else if same_text(ty, "HDG") {
        let g = read_hdg(&raw.fields);
        Staged {
            numbers: g.numbers,
            end: match g.end {
                Some(Ok(v)) => Some(Ok(NmeaFields::Hdg(v))),
                Some(Err(e)) => Some(Err(e)),
                None => None,
            },
        }
    } else {
        Staged { numbers: none, end: Some(Ok(NmeaFields::Custom(raw))) }
    }
}

/// Every time read is a time of day: hour below 24, minute and second below 60.
pub proof fn lemma_time_is_time_of_day(b: Seq<u8>)
    ensures
        time_field(b) matches Some(Ok(t)) ==> t.hour < 24 && t.minute < 60 && t.second < 60,
{
}

/// Every date read exists in the calendar, and its two-digit year falls in 1981 to 2080.
pub proof fn lemma_date_is_calendar_date(b: Seq<u8>)
    ensures
        date_of(b) matches Some(Ok(d)) ==> date_exists(d.year as int, d.month as int, d.day as int)
            && 1981 <= d.year <= 2080,
{
    if b.len() >= 6 {
        lemma_two_byte_year(b.subrange(4, 6));
    }
}

} // verus!
