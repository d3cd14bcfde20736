//! Laws of the NMEA field layouts, each stated directly over the fields of a sentence
//! (their byte texts) and what is read from them.
use vstd::prelude::*;
use vstd::string::*;
use vstd::utf8::*;

use crate::nmea::{frame, NmeaErrorView, SentenceView};
use crate::nmea::fields::{
    int_len, nmea_fields_of, coordinate_of, date_exists, date_of, dpt_of, gga_of, hdg_of, lemma_two_byte_year, rmc_of,
    sentence_fields, time_field, time_of, vhw_of, NmeaDate, NmeaFieldsView, NmeaTime,
};
use crate::text::{cuts_at, parse_i32, parse_unsigned, utf8};

verus! {

broadcast use vstd::utf8::group_utf8_lib;

/// The text of a number field as read: absent when the field is empty.
pub open spec fn present(b: Seq<u8>) -> Option<Seq<u8>> {
    if b.len() == 0 {
        None
    } else {
        Some(b)
    }
}

/// A date read from a `ddmmyy` field has the day written in bytes 0..2, the month
/// written in bytes 2..4 and, from the two-digit year `yy` in bytes 4..6, the year
/// `1900 + yy` when `yy > 80` and `2000 + yy` otherwise. Conversely, a field whose
/// three parts are numbers naming a calendar date reads as that date; and a field
/// that does not read fails with `DateParse` of the whole field.
pub proof fn lemma_date_fields(b: Seq<u8>)
    ensures
        date_of(b) matches Some(Ok(d)) ==> {
            &&& b.len() >= 6
            &&& parse_unsigned(b.take(2), 10, 0xffff_ffff) == Some(d.day as nat)
            &&& parse_unsigned(b.subrange(2, 4), 10, 0xffff_ffff) == Some(d.month as nat)
            &&& parse_i32(b.subrange(4, 6)) matches Some(yy) && d.year == (if yy > 80 {
                1900 + yy
            } else {
                2000 + yy
            })
        },
        date_of(b) matches Some(Err(e)) ==> (e == NmeaErrorView::DateParse(b)),
        ({
            &&& b.len() >= 6
            &&& cuts_at(b, 2) && cuts_at(b, 4) && cuts_at(b, 6)
            &&& parse_unsigned(b.take(2), 10, 0xffff_ffff) matches Some(d)
            &&& parse_unsigned(b.subrange(2, 4), 10, 0xffff_ffff) matches Some(m)
            &&& parse_i32(b.subrange(4, 6)) matches Some(yy)
            &&& date_exists(if yy > 80 { 1900 + yy } else { 2000 + yy }, m as int, d as int)
        }) ==> (date_of(b) matches Some(Ok(_))),
{
    if b.len() >= 6 {
        lemma_two_byte_year(b.subrange(4, 6));
    }
}

/// A time read from an `hhmmss[.ss]` field has the hour written in bytes 0..2, the
/// minute in bytes 2..4 and the second in bytes 4..6; an empty GGA or RMC time field
/// reads as midnight.
pub proof fn lemma_time_fields(b: Seq<u8>)
    ensures
        time_of(b) matches Some(Ok(t)) ==> {
            &&& b.len() >= 6
            &&& parse_unsigned(b.take(2), 10, 0xffff_ffff) == Some(t.hour as nat)
            &&& parse_unsigned(b.subrange(2, 4), 10, 0xffff_ffff) == Some(t.minute as nat)
            &&& parse_unsigned(b.subrange(4, 6), 10, 0xffff_ffff) == Some(t.second as nat)
        },
        b.len() == 0 ==> time_field(b) == Some(
            Ok::<NmeaTime, NmeaErrorView>(NmeaTime { hour: 0, minute: 0, second: 0 }),
        ),
        b.len() > 0 ==> time_field(b) == time_of(b),
{
    if b.len() > 6 {
        assert(b.take(6).take(2) =~= b.take(2));
        assert(b.take(6).subrange(2, 4) =~= b.subrange(2, 4));
        assert(b.take(6).subrange(4, 6) =~= b.subrange(4, 6));
    }
}

/// A coordinate that reads has as degrees its first two (latitude) or three
/// (longitude) bytes, and as minutes the rest of the field, absent when there is none.
pub proof fn lemma_coordinate_parts(b: Seq<u8>, is_latitude: bool)
    ensures
        coordinate_of(b, is_latitude).end matches Some(Ok(c)) ==> {
            let k: int = if is_latitude { 2 } else { 3 };
            &&& b.len() >= k
            &&& c.degrees == b.take(k)
            &&& c.minutes == (if b.len() == k { None } else { Some(b.skip(k)) })
        },
        b.len() == 0 ==> (coordinate_of(b, is_latitude).end matches Some(Err(_))),
{
}

/// GGA: with at least nine fields, a sentence that reads takes its time from field 0,
/// latitude from field 1 (south exactly when field 2 is `S`), longitude from field 3
/// (west exactly when field 4 is `W`), fix quality and satellites as the numbers in
/// fields 5 and 6, HDOP and altitude from fields 7 and 8. Fewer fields fail with
/// `MissingFields("GGA")`.
pub proof fn lemma_gga_fields(f: Seq<Seq<u8>>)
    ensures
        f.len() < 9 ==> gga_of(f).end == Some(
            Err::<crate::nmea::fields::GgaView, NmeaErrorView>(NmeaErrorView::MissingFields(utf8("GGA"@))),
        ),
        gga_of(f).end matches Some(Ok(v)) ==> {
            &&& f.len() >= 9
            &&& time_field(f[0]) == Some(Ok::<NmeaTime, NmeaErrorView>(v.time))
            &&& coordinate_of(f[1], true).end == Some(Ok::<_, NmeaErrorView>(v.lat))
            &&& v.lat_south == (f[2] == utf8("S"@))
            &&& coordinate_of(f[3], false).end == Some(Ok::<_, NmeaErrorView>(v.lon))
            &&& v.lon_west == (f[4] == utf8("W"@))
            &&& parse_unsigned(f[5], 10, 255) == Some(v.fix_quality as nat)
            &&& parse_unsigned(f[6], 10, 255) == Some(v.satellites as nat)
            &&& v.hdop == present(f[7])
            &&& v.altitude == present(f[8])
        },
{
}

/// RMC: with at least nine fields, a sentence that reads takes its time from field 0,
/// latitude from field 2 (south exactly when field 3 is `S`), longitude from field 4
/// (west exactly when field 5 is `W`), speed and course from fields 6 and 7, and the
/// date from field 8. Fewer fields fail with `MissingFields("RMC")`.
pub proof fn lemma_rmc_fields(f: Seq<Seq<u8>>)
    ensures
        f.len() < 9 ==> rmc_of(f).end == Some(
            Err::<crate::nmea::fields::RmcView, NmeaErrorView>(NmeaErrorView::MissingFields(utf8("RMC"@))),
        ),
        rmc_of(f).end matches Some(Ok(v)) ==> {
            &&& f.len() >= 9
            &&& time_field(f[0]) == Some(Ok::<NmeaTime, NmeaErrorView>(v.time))
            &&& coordinate_of(f[2], true).end == Some(Ok::<_, NmeaErrorView>(v.lat))
            &&& v.lat_south == (f[3] == utf8("S"@))
            &&& coordinate_of(f[4], false).end == Some(Ok::<_, NmeaErrorView>(v.lon))
            &&& v.lon_west == (f[5] == utf8("W"@))
            &&& v.speed_knots == present(f[6])
            &&& v.course == present(f[7])
            &&& date_of(f[8]) == Some(Ok::<NmeaDate, NmeaErrorView>(v.date))
        },
{
}

/// DPT: a sentence with at least one field always reads. The depth is field 0 (zero
/// when empty); the offset is field 1 exactly when field 1 is present and not empty,
/// however many fields follow; the texts read as numbers are the non-empty ones of
/// fields 0 and 1, in that order. No field fails with `MissingFields("DPT")`.
pub proof fn lemma_dpt_fields(f: Seq<Seq<u8>>)
    ensures
        f.len() == 0 ==> dpt_of(f).end == Some(
            Err::<crate::nmea::fields::DptView, NmeaErrorView>(NmeaErrorView::MissingFields(utf8("DPT"@))),
        ),
        f.len() > 0 ==> (dpt_of(f).end matches Some(Ok(v)) && v.depth_meters == present(f[0])
            && v.offset == (if f.len() > 1 && f[1].len() > 0 {
            Some(f[1])
        } else {
            None
        })),
        f.len() > 1 && f[1].len() > 0 ==> dpt_of(f).numbers.contains(f[1]),
        f.len() > 0 ==> dpt_of(f).numbers == (if f[0].len() > 0 {
            seq![f[0]]
        } else {
            Seq::empty()
        }) + (if f.len() > 1 && f[1].len() > 0 {
            seq![f[1]]
        } else {
            Seq::empty()
        }),
{
    if f.len() > 1 && f[1].len() > 0 {
        let n = dpt_of(f).numbers;
        assert(n[n.len() - 1] == f[1]);
    }
}

/// VHW: with at least five fields a sentence always reads, with the true heading from
/// field 0 and the magnetic heading from field 2 (each absent when empty) and the
/// speed from field 4 (zero when empty). Fewer fields fail with `MissingFields("VHW")`.
pub proof fn lemma_vhw_fields(f: Seq<Seq<u8>>)
    ensures
        f.len() < 5 ==> vhw_of(f).end == Some(
            Err::<crate::nmea::fields::VhwView, NmeaErrorView>(NmeaErrorView::MissingFields(utf8("VHW"@))),
        ),
        f.len() >= 5 ==> (vhw_of(f).end matches Some(Ok(v)) && v.heading_true == present(f[0])
            && v.heading_magnetic == present(f[2]) && v.speed_knots == present(f[4])),
{
}

/// HDG: a sentence with a non-empty heading in field 0 always reads, with that heading.
/// The deviation is present exactly when field 1 is present and not empty, and is then
/// field 1, negative exactly when field 2 is `W`; the variation is present exactly
/// when field 3 is present and not empty, and is then field 3, negative exactly when
/// field 4 is `W` — each independently of the other's fields. The heading and each
/// value present are among the texts read as numbers. A missing or empty heading
/// fails with `MissingFields("HDG")`.
pub proof fn lemma_hdg_fields(f: Seq<Seq<u8>>)
    ensures
        f.len() == 0 || f[0].len() == 0 ==> hdg_of(f).end == Some(
            Err::<crate::nmea::fields::HdgView, NmeaErrorView>(NmeaErrorView::MissingFields(utf8("HDG"@))),
        ),
        f.len() > 0 && f[0].len() > 0 ==> {
            &&& hdg_of(f).end matches Some(Ok(v))
            &&& v.heading == f[0]
            &&& (v.deviation is Some <==> f.len() > 1 && f[1].len() > 0)
            &&& (v.deviation matches Some(d) ==> d.text == f[1] && d.negative == (f.len() > 2
                && f[2] == utf8("W"@)))
            &&& (v.variation is Some <==> f.len() > 3 && f[3].len() > 0)
            &&& (v.variation matches Some(w) ==> w.text == f[3] && w.negative == (f.len() > 4
                && f[4] == utf8("W"@)))
            &&& hdg_of(f).numbers.contains(f[0])
            &&& (f.len() > 1 && f[1].len() > 0 ==> hdg_of(f).numbers.contains(f[1]))
            &&& (f.len() > 3 && f[3].len() > 0 ==> hdg_of(f).numbers.contains(f[3]))
        },
{
    if f.len() > 0 && f[0].len() > 0 {
        let n = hdg_of(f).numbers;
        assert(n[0] == f[0]);
        if f.len() > 1 && f[1].len() > 0 {
            assert(n[1] == f[1]);
        }
        if f.len() > 3 && f[3].len() > 0 {
            assert(n[n.len() - 1] == f[3]);
        }
    }
}

/// The layout a framed sentence is read by depends only on its sentence type and
/// fields: two sentences that differ only in talker (or checksum) list the same
/// numbers and read into the same fields, except that a sentence of another type is
/// kept whole as `Custom`.
pub proof fn lemma_layout_ignores_talker(r1: SentenceView, r2: SentenceView)
    requires
        r1.sentence_type == r2.sentence_type,
        r1.fields == r2.fields,
    ensures
        sentence_fields(r1).numbers == sentence_fields(r2).numbers,
        sentence_fields(r1).end matches Some(Ok(NmeaFieldsView::Custom(x))) ==> (x == r1
            && sentence_fields(r2).end == Some(Ok::<_, NmeaErrorView>(NmeaFieldsView::Custom(r2)))),
        !(sentence_fields(r1).end matches Some(Ok(NmeaFieldsView::Custom(_))))
            ==> sentence_fields(r1).end == sentence_fields(r2).end,
{
}

/// Each supported sentence type is read by its own layout, whatever the talker: a
/// `GGA`, `RMC`, `DPT`, `VHW` or `HDG` sentence lists the numbers of that layout and,
/// when its fields read, gives that kind of fields; any other type reads as `Custom`
/// of the sentence itself.
pub proof fn lemma_layout_by_type(r: SentenceView)
    ensures
        r.sentence_type == utf8("GGA"@) ==> sentence_fields(r).numbers == gga_of(r.fields).numbers
            && (gga_of(r.fields).end matches Some(Ok(g)) ==> sentence_fields(r).end == Some(
            Ok::<_, NmeaErrorView>(NmeaFieldsView::Gga(g)),
        )),
        r.sentence_type == utf8("RMC"@) ==> sentence_fields(r).numbers == rmc_of(r.fields).numbers
            && (rmc_of(r.fields).end matches Some(Ok(g)) ==> sentence_fields(r).end == Some(
            Ok::<_, NmeaErrorView>(NmeaFieldsView::Rmc(g)),
        )),
        r.sentence_type == utf8("DPT"@) ==> sentence_fields(r).numbers == dpt_of(r.fields).numbers
            && (dpt_of(r.fields).end matches Some(Ok(g)) ==> sentence_fields(r).end == Some(
            Ok::<_, NmeaErrorView>(NmeaFieldsView::Dpt(g)),
        )),
        r.sentence_type == utf8("VHW"@) ==> sentence_fields(r).numbers == vhw_of(r.fields).numbers
            && (vhw_of(r.fields).end matches Some(Ok(g)) ==> sentence_fields(r).end == Some(
            Ok::<_, NmeaErrorView>(NmeaFieldsView::Vhw(g)),
        )),
        r.sentence_type == utf8("HDG"@) ==> sentence_fields(r).numbers == hdg_of(r.fields).numbers
            && (hdg_of(r.fields).end matches Some(Ok(g)) ==> sentence_fields(r).end == Some(
            Ok::<_, NmeaErrorView>(NmeaFieldsView::Hdg(g)),
        )),
        r.sentence_type != utf8("GGA"@) && r.sentence_type != utf8("RMC"@) && r.sentence_type
            != utf8("DPT"@) && r.sentence_type != utf8("VHW"@) && r.sentence_type != utf8("HDG"@)
            ==> sentence_fields(r).end == Some(Ok::<_, NmeaErrorView>(NmeaFieldsView::Custom(r)))
            && sentence_fields(r).numbers.len() == 0,
{
    reveal_strlit("GGA");
    reveal_strlit("RMC");
    reveal_strlit("DPT");
    reveal_strlit("VHW");
    reveal_strlit("HDG");
    let names = seq!["GGA"@, "RMC"@, "DPT"@, "VHW"@, "HDG"@];
    assert forall|i: int, j: int| 0 <= i < j < 5 implies utf8(#[trigger] names[i]) != utf8(
        #[trigger] names[j],
    ) by {
        assert(decode_utf8(utf8(names[i])) == names[i]);
        assert(decode_utf8(utf8(names[j])) == names[j]);
        assert(names[i] != names[j]);
    }
    assert(utf8(names[0]) != utf8(names[1]));
    assert(utf8(names[0]) != utf8(names[2]));
    assert(utf8(names[1]) != utf8(names[2]));
    assert(utf8(names[0]) != utf8(names[3]));
    assert(utf8(names[1]) != utf8(names[3]));
    assert(utf8(names[2]) != utf8(names[3]));
    assert(utf8(names[0]) != utf8(names[4]));
    assert(utf8(names[1]) != utf8(names[4]));
    assert(utf8(names[2]) != utf8(names[4]));
    assert(utf8(names[3]) != utf8(names[4]));
}

/// The texts a number field adds to the numbers to read: itself unless it is empty.
pub open spec fn present_texts(b: Seq<u8>) -> Seq<Seq<u8>> {
    if b.len() == 0 {
        Seq::empty()
    } else {
        seq![b]
    }
}

/// A coordinate field is read as numbers in its degrees and then its minutes, if any;
/// an empty field, or one with a `.` or its end within the degree digits, is an
/// `InvalidCoordinate`; one with all its degree digits before any `.` reads when the
/// degrees end on a character boundary.
pub proof fn lemma_coordinate_reading(b: Seq<u8>, is_latitude: bool)
    ensures
        coordinate_of(b, is_latitude).end matches Some(Ok(c)) ==> coordinate_of(b, is_latitude).numbers
            == seq![c.degrees] + (match c.minutes {
            Some(m) => seq![m],
            None => Seq::empty(),
        }),
        ({
            let k: int = if is_latitude { 2 } else { 3 };
            b.len() > 0 && (b.len() < k || exists|j: int| 0 <= j < k && b[j] == 46u8)
        }) ==> (coordinate_of(b, is_latitude).end matches Some(Err(NmeaErrorView::InvalidCoordinate(_)))),
        ({
            let k: int = if is_latitude { 2 } else { 3 };
            &&& b.len() >= k
            &&& forall|j: int| 0 <= j < k ==> b[j] != 46u8
            &&& cuts_at(b, k)
        }) ==> (coordinate_of(b, is_latitude).end matches Some(Ok(_))),
{
    let k: int = if is_latitude { 2 } else { 3 };
    lemma_int_len(b);
    if b.len() >= k && forall|j: int| 0 <= j < k ==> b[j] != 46u8 {
        assert(int_len(b) >= k);
    }
    if b.len() > 0 && exists|j: int| 0 <= j < k && b[j] == 46u8 {
        let j = choose|j: int| 0 <= j < k && b[j] == 46u8;
        assert(int_len(b) <= j);
    }
}

/// The part of a coordinate before its first `.` holds no `.`, and a `.` ends it
/// unless it runs to the end of the field.
proof fn lemma_int_len(b: Seq<u8>)
    ensures
        0 <= int_len(b) <= b.len(),
        forall|j: int| 0 <= j < int_len(b) ==> b[j] != 46u8,
        int_len(b) < b.len() ==> b[int_len(b)] == 46u8,
    decreases b.len(),
{
    if b.len() > 0 {
        lemma_int_len(b.drop_first());
        if b[0] != 46u8 {
            assert forall|j: int| 1 <= j < b.len() implies b[j] == b.drop_first()[j - 1] by {}
        }
    }
}

/// A time field that reads is one whose hours, minutes and seconds are numbers below
/// 24, 60 and 60; a field whose first six bytes are such numbers reads as that time;
/// a field that fails does so with `TimeParse` of its first six bytes (all of it when
/// shorter).
pub proof fn lemma_time_reading(b: Seq<u8>)
    ensures
        ({
            &&& b.len() >= 6
            &&& cuts_at(b, 2) && cuts_at(b, 4) && cuts_at(b, 6)
            &&& parse_unsigned(b.take(2), 10, 0xffff_ffff) matches Some(h)
            &&& parse_unsigned(b.subrange(2, 4), 10, 0xffff_ffff) matches Some(m)
            &&& parse_unsigned(b.subrange(4, 6), 10, 0xffff_ffff) matches Some(sec)
            &&& h < 24 && m < 60 && sec < 60
        }) ==> (time_of(b) matches Some(Ok(_))),
        time_of(b) matches Some(Err(e)) ==> (e == NmeaErrorView::TimeParse(
            if b.len() > 6 {
                b.take(6)
            } else {
                b
            },
        )),
{
    if b.len() > 6 {
        let s = b.take(6);
        assert(s.take(2) =~= b.take(2));
        assert(s.subrange(2, 4) =~= b.subrange(2, 4));
        assert(s.subrange(4, 6) =~= b.subrange(4, 6));
        assert(cuts_at(b, 2) ==> cuts_at(s, 2));
        assert(cuts_at(b, 4) ==> cuts_at(s, 4));
    }
}

/// GGA, when it does not read: a failing time or coordinate is reported as it is, a
/// fix quality that is not a number up to 255 as `InvalidFixQuality` of that field,
/// and a satellite count that is not such a number as `FloatParse` of that field.
/// When all of those read, the sentence reads, and the numbers to read are the
/// latitude's, the longitude's, then the HDOP and altitude fields unless empty.
pub proof fn lemma_gga_reading(f: Seq<Seq<u8>>)
    ensures
        f.len() >= 9 ==> {
            let lat = coordinate_of(f[1], true);
            let lon = coordinate_of(f[3], false);
            &&& time_field(f[0]) matches Some(Err(e)) ==> gga_of(f).end == Some(
                Err::<crate::nmea::fields::GgaView, NmeaErrorView>(e),
            )
            &&& time_field(f[0]) matches Some(Ok(_)) ==> (lat.end matches Some(Err(e)) ==> gga_of(
                f,
            ).end == Some(Err::<crate::nmea::fields::GgaView, NmeaErrorView>(e)))
            &&& (time_field(f[0]) matches Some(Ok(_)) && lat.end matches Some(Ok(_))) ==> (
            lon.end matches Some(Err(e)) ==> gga_of(f).end == Some(
                Err::<crate::nmea::fields::GgaView, NmeaErrorView>(e),
            ))
            &&& (time_field(f[0]) matches Some(Ok(_)) && lat.end matches Some(Ok(_))
                && lon.end matches Some(Ok(_))) ==> {
                &&& parse_unsigned(f[5], 10, 255) is None ==> gga_of(f).end == Some(
                    Err::<crate::nmea::fields::GgaView, NmeaErrorView>(
                        NmeaErrorView::InvalidFixQuality(f[5]),
                    ),
                )
                &&& (parse_unsigned(f[5], 10, 255) is Some && parse_unsigned(f[6], 10, 255) is None)
                    ==> gga_of(f).end == Some(
                    Err::<crate::nmea::fields::GgaView, NmeaErrorView>(
                        NmeaErrorView::FloatParse(f[6]),
                    ),
                )
                &&& (parse_unsigned(f[5], 10, 255) is Some && parse_unsigned(f[6], 10, 255) is Some)
                    ==> (gga_of(f).end matches Some(Ok(_))) && gga_of(f).numbers == lat.numbers
                    + lon.numbers + present_texts(f[7]) + present_texts(f[8])
            }
        },
{
}

/// RMC, when it does not read: a failing time, coordinate or date is reported as it
/// is. When the time, both coordinates and the date read, the sentence reads, and the
/// numbers to read are the latitude's, the longitude's, then the speed and course
/// fields unless empty.
pub proof fn lemma_rmc_reading(f: Seq<Seq<u8>>)
    ensures
        f.len() >= 9 ==> {
            let lat = coordinate_of(f[2], true);
            let lon = coordinate_of(f[4], false);
            &&& time_field(f[0]) matches Some(Err(e)) ==> rmc_of(f).end == Some(
                Err::<crate::nmea::fields::RmcView, NmeaErrorView>(e),
            )
            &&& time_field(f[0]) matches Some(Ok(_)) ==> (lat.end matches Some(Err(e)) ==> rmc_of(
                f,
            ).end == Some(Err::<crate::nmea::fields::RmcView, NmeaErrorView>(e)))
            &&& (time_field(f[0]) matches Some(Ok(_)) && lat.end matches Some(Ok(_))) ==> (
            lon.end matches Some(Err(e)) ==> rmc_of(f).end == Some(
                Err::<crate::nmea::fields::RmcView, NmeaErrorView>(e),
            ))
            &&& (time_field(f[0]) matches Some(Ok(_)) && lat.end matches Some(Ok(_))
                && lon.end matches Some(Ok(_))) ==> {
                &&& rmc_of(f).numbers == lat.numbers + lon.numbers + present_texts(f[6])
                    + present_texts(f[7])
                &&& date_of(f[8]) matches Some(Err(e)) ==> rmc_of(f).end == Some(
                    Err::<crate::nmea::fields::RmcView, NmeaErrorView>(e),
                )
                &&& date_of(f[8]) matches Some(Ok(_)) ==> (rmc_of(f).end matches Some(Ok(_)))
            }
        },
{
}

/// The numbers a VHW sentence reads are its true heading, magnetic heading and speed
/// fields, each unless empty, in that order; those of an HDG sentence are its heading,
/// then its deviation and variation fields when present and not empty.
pub proof fn lemma_vhw_hdg_numbers(f: Seq<Seq<u8>>)
    ensures
        f.len() >= 5 ==> vhw_of(f).numbers == present_texts(f[0]) + present_texts(f[2])
            + present_texts(f[4]),
        f.len() > 0 && f[0].len() > 0 ==> hdg_of(f).numbers == seq![f[0]] + (if f.len() > 1
            && f[1].len() > 0 {
            seq![f[1]]
        } else {
            Seq::empty()
        }) + (if f.len() > 3 && f[3].len() > 0 {
            seq![f[3]]
        } else {
            Seq::empty()
        }),
{
}

/// A sentence is framed before its fields are read: a framing error is reported as it
/// is with no numbers to read, and a framed sentence is read by its type's layout.
pub proof fn lemma_framed_before_fields(t: Seq<u8>)
    ensures
        frame(t) matches Some(Err(e)) ==> nmea_fields_of(t).end == Some(
            Err::<NmeaFieldsView, NmeaErrorView>(e),
        ) && nmea_fields_of(t).numbers.len() == 0,
        frame(t) is None ==> nmea_fields_of(t).end is None,
        frame(t) matches Some(Ok(raw)) ==> nmea_fields_of(t) == sentence_fields(raw),
{
}

} // verus!
