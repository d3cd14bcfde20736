//! NMEA 0183 sentences: framing (leading `$`, `*` and a hexadecimal checksum,
//! comma-separated fields) and the field layouts of the supported sentence types.
use vstd::prelude::*;
use vstd::string::*;

pub mod fields;
pub mod laws;

use crate::text::{
    cuts_at, digit_of, digits_value, lemma_ascii_ends, lemma_cut_after_ascii, lemma_split_on_first,
    lemma_split_on_nonempty, lemma_trimmed_unchanged, parse_unsigned, parse_unsigned_in, split_on,
    split_owned, substring_owned, text, texts, trim, trimmed, utf8,
};

verus! {

broadcast use vstd::utf8::group_utf8_lib;

/// A raw NMEA 0183 sentence with its components.
#[derive(Debug, Clone, PartialEq)]
pub struct NmeaSentence {
    pub talker: String,
    pub sentence_type: String,
    pub fields: Vec<String>,
    pub checksum: u8,
}

/// A raw sentence as bytes: talker, sentence type, fields and checksum.
pub struct SentenceView {
    pub talker: Seq<u8>,
    pub sentence_type: Seq<u8>,
    pub fields: Seq<Seq<u8>>,
    pub checksum: u8,
}

impl View for NmeaSentence {
    type V = SentenceView;

    open spec fn view(&self) -> SentenceView {
        SentenceView {
            talker: text(self.talker),
            sentence_type: text(self.sentence_type),
            fields: texts(self.fields@),
            checksum: self.checksum,
        }
    }
}

/// Errors that can occur during NMEA parsing.
#[derive(Debug, Clone, PartialEq)]
pub enum NmeaError {
    TooShort,
    MissingLeadingDollar,
    MissingChecksumMarker,
    ChecksumMismatch { expected: u8, actual: u8 },
    InvalidChecksumHex,
    UnknownSentenceType(String),
    MissingFields(String),
    FloatParse(String),
    TimeParse(String),
    DateParse(String),
    InvalidCoordinate(String),
    InvalidFixQuality(String),
}

/// An NMEA error with its text payload as bytes.
pub enum NmeaErrorView {
    TooShort,
    MissingLeadingDollar,
    MissingChecksumMarker,
    ChecksumMismatch { expected: u8, actual: u8 },
    InvalidChecksumHex,
    UnknownSentenceType(Seq<u8>),
    MissingFields(Seq<u8>),
    FloatParse(Seq<u8>),
    TimeParse(Seq<u8>),
    DateParse(Seq<u8>),
    InvalidCoordinate(Seq<u8>),
    InvalidFixQuality(Seq<u8>),
}

impl View for NmeaError {
    type V = NmeaErrorView;

    open spec fn view(&self) -> NmeaErrorView {
        match self {
            NmeaError::TooShort => NmeaErrorView::TooShort,
            NmeaError::MissingLeadingDollar => NmeaErrorView::MissingLeadingDollar,
            NmeaError::MissingChecksumMarker => NmeaErrorView::MissingChecksumMarker,
            NmeaError::ChecksumMismatch { expected, actual } => NmeaErrorView::ChecksumMismatch {
                expected: *expected,
                actual: *actual,
            },
            NmeaError::InvalidChecksumHex => NmeaErrorView::InvalidChecksumHex,
            NmeaError::UnknownSentenceType(s) => NmeaErrorView::UnknownSentenceType(text(*s)),
            NmeaError::MissingFields(s) => NmeaErrorView::MissingFields(text(*s)),
            NmeaError::FloatParse(s) => NmeaErrorView::FloatParse(text(*s)),
            NmeaError::TimeParse(s) => NmeaErrorView::TimeParse(text(*s)),
            NmeaError::DateParse(s) => NmeaErrorView::DateParse(text(*s)),
            NmeaError::InvalidCoordinate(s) => NmeaErrorView::InvalidCoordinate(text(*s)),
            NmeaError::InvalidFixQuality(s) => NmeaErrorView::InvalidFixQuality(text(*s)),
        }
    }
}

/// A result seen through the views of its two sides.
pub open spec fn result_view<T: View, E: View>(r: Result<T, E>) -> Result<T::V, E::V> {
    match r {
        Ok(t) => Ok(t@),
        Err(e) => Err(e@),
    }
}

/// A parse outcome seen through its views; `None` stands for an input on which
/// slicing a field would cut a character in two.
pub open spec fn outcome_view<T: View, E: View>(r: Option<Result<T, E>>) -> Option<Result<T::V, E::V>> {
    match r {
        Some(x) => Some(result_view(x)),
        None => None,
    }
}

/// The NMEA checksum of `b` continued from `acc`: the XOR of every byte before the
/// first `*`, leaving out each `$`.
pub open spec fn checksum_from(b: Seq<u8>, acc: u8) -> u8
    decreases b.len(),
{
    if b.len() == 0 || b[0] == 42u8 {
        acc
    } else if b[0] == 36u8 {
        checksum_from(b.drop_first(), acc)
    } else {
        checksum_from(b.drop_first(), acc ^ b[0])
    }
}

/// The NMEA checksum of a sentence: the XOR of all bytes before the first `*`, except `$`.
pub open spec fn nmea_checksum(b: Seq<u8>) -> u8 {
    checksum_from(b, 0)
}

/// Compute the NMEA checksum (XOR of all bytes between '$' and '*').
pub fn compute_checksum(sentence: &str) -> (r: u8)
    ensures
        r == nmea_checksum(sentence.spec_bytes()),
{
    let b = sentence.as_bytes();
    let mut acc: u8 = 0;
    let mut i: usize = 0;
    assert(b@.subrange(0, b@.len() as int) =~= b@);
    while i < b.len()
        invariant
            i <= b@.len(),
            b@ == sentence.spec_bytes(),
            checksum_from(b@, 0) == checksum_from(b@.subrange(i as int, b@.len() as int), acc),
        decreases b.len() - i,
    {
        let c = b[i];
        proof {
            let rest = b@.subrange(i as int, b@.len() as int);
            assert(rest.drop_first() =~= b@.subrange(i as int + 1, b@.len() as int));
            assert(rest[0] == c);
        }
        if c == 42u8 {
            return acc;
        }
        if c != 36u8 {
            acc = acc ^ c;
        }
        i = i + 1;
    }
    assert(b@.subrange(i as int, b@.len() as int) =~= Seq::<u8>::empty());
    acc
}

/// The index of the last byte of `b` equal to `x`.
pub open spec fn last_index_of(b: Seq<u8>, x: u8) -> Option<int>
    decreases b.len(),
{
    if b.len() == 0 {
        None
    } else if b.last() == x {
        Some(b.len() - 1)
    } else {
        last_index_of(b.drop_last(), x)
    }
}

/// `last_index_of` names an index of `x`, after which `x` does not occur.
pub proof fn lemma_last_index_of(b: Seq<u8>, x: u8)
    ensures
        last_index_of(b, x) matches Some(k) ==> 0 <= k < b.len() && b[k] == x && forall|j: int|
            k < j < b.len() ==> b[j] != x,
        last_index_of(b, x) is None ==> forall|j: int| 0 <= j < b.len() ==> b[j] != x,
    decreases b.len(),
{
    if b.len() > 0 {
        lemma_last_index_of(b.drop_last(), x);
        if b.last() != x {
            assert forall|j: int| 0 <= j < b.len() - 1 implies b[j] == b.drop_last()[j] by {}
        }
    }
}

/// The raw sentence that the framing rules make of the trimmed bytes `t`:
/// a length of at least 6, a leading `$`, a last `*` followed by a hexadecimal
/// checksum equal to `nmea_checksum(t)`, and a first field of at least three bytes
/// holding the talker (two bytes) and the sentence type. `None` where the talker
/// would end inside a character.
pub open spec fn frame(t: Seq<u8>) -> Option<Result<SentenceView, NmeaErrorView>> {
    if t.len() < 6 {
        Some(Err(NmeaErrorView::TooShort))
    } else if t[0] != 36u8 {
        Some(Err(NmeaErrorView::MissingLeadingDollar))
    } else {
        match last_index_of(t, 42u8) {
            None => Some(Err(NmeaErrorView::MissingChecksumMarker)),
            Some(star) => match parse_unsigned(t.subrange(star + 1, t.len() as int), 16, 255) {
                None => Some(Err(NmeaErrorView::InvalidChecksumHex)),
                Some(actual) => if nmea_checksum(t) != actual {
                    Some(
                        Err(
                            NmeaErrorView::ChecksumMismatch {
                                expected: nmea_checksum(t),
                                actual: actual as u8,
                            },
                        ),
                    )
                } else {
                    let parts = split_on(t.subrange(1, star), 44u8);
                    if parts[0].len() < 3 {
                        Some(Err(NmeaErrorView::TooShort))
                    } else if !cuts_at(parts[0], 2) {
                        None
                    } else {
                        Some(
                            Ok(
                                SentenceView {
                                    talker: parts[0].take(2),
                                    sentence_type: parts[0].skip(2),
                                    fields: parts.skip(1),
                                    checksum: actual as u8,
                                },
                            ),
                        )
                    }
                },
            },
        }
    }
}

/// Parse the framing of an NMEA 0183 sentence such as
/// `$GPGGA,123519,4807.038,N,...*47` into its raw parts, after trimming whitespace.
/// Returns `None` where the first field would be cut inside a character.
pub fn parse_nmea_sentence(sentence: &str) -> (r: Option<Result<NmeaSentence, NmeaError>>)
    ensures
        outcome_view(r) == frame(utf8(trimmed(sentence@))),
{
    let t = trim(sentence);
    let b = t.as_bytes();
    let n = b.len();
    let ghost tb = b@;
    if n < 6 {
        return Some(Err(NmeaError::TooShort));
    }
    if b[0] != 36u8 {
        return Some(Err(NmeaError::MissingLeadingDollar));
    }
    // find the last '*'
    let mut k = n;
    let mut star: usize = 0;
    let mut found = false;
    assert(tb.take(n as int) =~= tb);
    while k > 0 && !found
        invariant
            k <= n == tb.len(),
            b@ == tb,
            found ==> star < n && last_index_of(tb, 42u8) == Some(star as int),
            !found ==> last_index_of(tb, 42u8) == last_index_of(tb.take(k as int), 42u8),
        decreases k,
    {
        proof {
            assert(tb.take(k as int).drop_last() =~= tb.take(k - 1));
        }
        if b[k - 1] == 42u8 {
            star = k - 1;
            found = true;
        }
        k = k - 1;
    }
    proof {
        lemma_last_index_of(tb, 42u8);
        assert(tb.take(0) =~= Seq::<u8>::empty());
    }
    if !found {
        return Some(Err(NmeaError::MissingChecksumMarker));
    }
    assert(last_index_of(tb, 42u8) == Some(star as int));
    let expected = compute_checksum(t);
    let actual = match parse_unsigned_in(b, star + 1, n, 16, 255) {
        Some(v) => v as u8,
        None => {
            return Some(Err(NmeaError::InvalidChecksumHex));
        },
    };
    if expected != actual {
        return Some(Err(NmeaError::ChecksumMismatch { expected, actual }));
    }
    proof {
        lemma_cut_after_ascii(tb, 0);
        lemma_cut_after_ascii(tb, star as int);
    }
    let mut parts = split_owned(t, 1, star, 44u8);
    proof {
        lemma_split_on_nonempty(tb.subrange(1, star as int), 44u8);
    }
    let first = parts[0].as_str();
    let fb = first.as_bytes();
    let ghost p0 = fb@;
    assert(p0 == texts(parts@)[0]);
    if fb.len() < 3 {
        return Some(Err(NmeaError::TooShort));
    }
    if 0x80u8 <= fb[2] && fb[2] <= 0xbfu8 {
        return None;
    }
    proof {
        lemma_cut_after_ascii(tb, 0);
    }
    let talker = substring_owned(first, 0, 2);
    let sentence_type = substring_owned(first, 2, fb.len());
    let ghost before = parts@;
    let _ = parts.remove(0);
    proof {
        assert(parts@ == before.remove(0));
        assert(texts(parts@) =~= texts(before).skip(1));
        assert(p0.subrange(0, 2) =~= p0.take(2));
        assert(p0.subrange(2, p0.len() as int) =~= p0.skip(2));
    }
    Some(Ok(NmeaSentence { talker, sentence_type, fields: parts, checksum: actual }))
}

/// The hexadecimal digit (uppercase) for a value below 16.
pub open spec fn hex_digit(d: nat) -> u8 {
    if d < 10 {
        (48 + d) as u8
    } else {
        (55 + d) as u8
    }
}

/// The checksum field that a sentence writer puts after `*`: two uppercase hexadecimal digits.
pub open spec fn checksum_field(x: u8) -> Seq<u8> {
    seq![hex_digit((x / 16) as nat), hex_digit((x % 16) as nat)]
}

/// The sentence `$<body>*<checksum>` written for a body.
pub open spec fn sentence_of(body: Seq<u8>) -> Seq<u8> {
    seq![36u8] + body + seq![42u8] + checksum_field(nmea_checksum(body))
}

/// Without a `*`, the checksum runs over the whole of `a` and then on into `rest`.
proof fn lemma_checksum_concat(a: Seq<u8>, rest: Seq<u8>, acc: u8)
    requires
        forall|i: int| 0 <= i < a.len() ==> a[i] != 42u8,
    ensures
        checksum_from(a + rest, acc) == checksum_from(rest, checksum_from(a, acc)),
    decreases a.len(),
{
    if a.len() == 0 {
        assert(a + rest =~= rest);
    } else {
        assert((a + rest).drop_first() =~= a.drop_first() + rest);
        assert((a + rest)[0] == a[0]);
        assert forall|i: int| 0 <= i < a.drop_first().len() implies a.drop_first()[i] != 42u8 by {
            assert(a.drop_first()[i] == a[i + 1]);
        }
        if a[0] == 36u8 {
            lemma_checksum_concat(a.drop_first(), rest, acc);
        } else {
            lemma_checksum_concat(a.drop_first(), rest, acc ^ a[0]);
        }
    }
}

/// The checksum field of `x` reads back as `x`.
proof fn lemma_checksum_field(x: u8)
    ensures
        parse_unsigned(checksum_field(x), 16, 255) == Some(x as nat),
{
    let f = checksum_field(x);
    let hi = (x / 16) as nat;
    let lo = (x % 16) as nat;
    assert(digit_of(hex_digit(hi), 16) == hi);
    assert(digit_of(hex_digit(lo), 16) == lo);
    assert(f.drop_last() =~= seq![hex_digit(hi)]);
    assert(f.drop_last().drop_last().len() == 0);
    reveal_with_fuel(digits_value, 3);
    assert(digits_value(f, 16) == hi * 16 + lo);
    assert(f[0] != 43u8);
}

/// A sentence written as `$<body>*<checksum>`, where `<checksum>` is the two
/// uppercase hexadecimal digits of the XOR of the body's bytes, frames back into the
/// body: talker and type from its first comma-separated part, the remaining parts as
/// fields, and the checksum. The body must hold no `$` or `*`, and its first part must
/// be at least three bytes long with its third byte beginning a character.
proof fn lemma_frame_of_written_sentence(body: Seq<u8>)
    requires
        forall|i: int| 0 <= i < body.len() ==> body[i] != 36u8 && body[i] != 42u8,
        split_on(body, 44u8)[0].len() >= 3,
        cuts_at(split_on(body, 44u8)[0], 2),
    ensures
        frame(sentence_of(body)) == Some(
            Ok::<SentenceView, NmeaErrorView>(
                SentenceView {
                    talker: split_on(body, 44u8)[0].take(2),
                    sentence_type: split_on(body, 44u8)[0].skip(2),
                    fields: split_on(body, 44u8).skip(1),
                    checksum: nmea_checksum(body),
                },
            ),
        ),
{
    let x = nmea_checksum(body);
    let t = sentence_of(body);
    let n = body.len() as int;
    lemma_split_on_first(body, 44u8);
    assert(t.len() == n + 4);
    assert(t[0] == 36u8);
    // the last '*'
    let hh = checksum_field(x);
    assert(t[n + 1] == 42u8);
    assert(t[n + 2] == hh[0] && t[n + 3] == hh[1]);
    assert(hh[0] != 42u8 && hh[1] != 42u8);
    assert(t.drop_last().drop_last() =~= t.take(n + 2));
    reveal_with_fuel(last_index_of, 3);
    assert(last_index_of(t, 42u8) == Some(n + 1));
    assert(t.subrange(n + 2, n + 4) =~= hh);
    lemma_checksum_field(x);
    // the checksum of the whole sentence
    assert(t.drop_first() =~= body + (seq![42u8] + hh));
    lemma_checksum_concat(body, seq![42u8] + hh, 0);
    assert(nmea_checksum(t) == x);
    assert(t.subrange(1, n + 1) =~= body);
}

/// What a writer sends is what a reader gets back: a text whose bytes are
/// `$<body>*<checksum>`, where `<checksum>` is the two uppercase hexadecimal digits of
/// the XOR of the body's bytes, is read by `parse_nmea_sentence` as the body's talker,
/// sentence type, fields and that checksum. The body must hold no `$` or `*`, and its
/// first comma-separated part must be at least three bytes long with its third byte
/// beginning a character.
pub proof fn lemma_read_written_sentence(s: Seq<char>, body: Seq<u8>)
    requires
        utf8(s) == sentence_of(body),
        forall|i: int| 0 <= i < body.len() ==> body[i] != 36u8 && body[i] != 42u8,
        split_on(body, 44u8)[0].len() >= 3,
        cuts_at(split_on(body, 44u8)[0], 2),
    ensures
        frame(utf8(trimmed(s))) == Some(
            Ok::<SentenceView, NmeaErrorView>(
                SentenceView {
                    talker: split_on(body, 44u8)[0].take(2),
                    sentence_type: split_on(body, 44u8)[0].skip(2),
                    fields: split_on(body, 44u8).skip(1),
                    checksum: nmea_checksum(body),
                },
            ),
        ),
{
    let t = sentence_of(body);
    let hh = checksum_field(nmea_checksum(body));
    assert(t.last() == hh[1]);
    assert(t[0] == 36u8);
    lemma_ascii_ends(s);
    lemma_trimmed_unchanged(s);
    lemma_frame_of_written_sentence(body);
}

/// Whether `b` holds neither `$` nor `*`.
pub open spec fn plain_body(b: Seq<u8>) -> bool {
    forall|i: int| 0 <= i < b.len() ==> b[i] != 36u8 && b[i] != 42u8
}

/// Over a plain body, a change `d` to the starting value passes straight through.
proof fn lemma_checksum_shift(r: Seq<u8>, acc: u8, d: u8)
    requires
        plain_body(r),
    ensures
        checksum_from(r, acc ^ d) == checksum_from(r, acc) ^ d,
    decreases r.len(),
{
    if r.len() > 0 {
        let x = r[0];
        assert(plain_body(r.drop_first())) by {
            assert forall|i: int| 0 <= i < r.drop_first().len() implies r.drop_first()[i] != 36u8
                && r.drop_first()[i] != 42u8 by {
                assert(r.drop_first()[i] == r[i + 1]);
            }
        }
        assert((acc ^ d) ^ x == (acc ^ x) ^ d) by (bit_vector);
        lemma_checksum_shift(r.drop_first(), acc ^ x, d);
    }
}

/// Replacing byte `i` of a plain body by `c` changes its checksum by `b[i] ^ c`.
proof fn lemma_checksum_update(b: Seq<u8>, i: int, c: u8, acc: u8)
    requires
        plain_body(b),
        0 <= i < b.len(),
        c != 36u8 && c != 42u8,
    ensures
        checksum_from(b.update(i, c), acc) == checksum_from(b, acc) ^ b[i] ^ c,
    decreases b.len(),
{
    let b2 = b.update(i, c);
    let rest = b.drop_first();
    assert(plain_body(rest)) by {
        assert forall|j: int| 0 <= j < rest.len() implies rest[j] != 36u8 && rest[j] != 42u8 by {
            assert(rest[j] == b[j + 1]);
        }
    }
    if i == 0 {
        assert(b2.drop_first() =~= rest);
        let x = b[0];
        assert(acc ^ c == (acc ^ x) ^ (x ^ c)) by (bit_vector);
        lemma_checksum_shift(rest, acc ^ x, x ^ c);
        let v = checksum_from(rest, acc ^ x);
        assert(v ^ (x ^ c) == v ^ x ^ c) by (bit_vector);
    } else {
        assert(b2.drop_first() =~= rest.update(i - 1, c));
        assert(rest[i - 1] == b[i]);
        lemma_checksum_update(rest, i - 1, c, acc ^ b[0]);
    }
}

/// The checksum catches any one changed byte: when byte `i` of the body of a written
/// sentence is replaced by another byte (not `$` or `*`) and the checksum field is
/// left as it was, `parse_nmea_sentence` reports `ChecksumMismatch`, with the checksum
/// of the changed body as expected and the written checksum as actual.
pub proof fn lemma_changed_byte_is_caught(s: Seq<char>, body: Seq<u8>, i: int, c: u8)
    requires
        plain_body(body),
        body.len() >= 2,
        0 <= i < body.len(),
        c != body[i],
        c != 36u8 && c != 42u8,
        utf8(s) == seq![36u8] + body.update(i, c) + seq![42u8] + checksum_field(nmea_checksum(body)),
    ensures
        nmea_checksum(body.update(i, c)) != nmea_checksum(body),
        frame(utf8(trimmed(s))) == Some(
            Err::<SentenceView, NmeaErrorView>(
                NmeaErrorView::ChecksumMismatch {
                    expected: nmea_checksum(body.update(i, c)),
                    actual: nmea_checksum(body),
                },
            ),
        ),
{
    let b2 = body.update(i, c);
    let x = nmea_checksum(body);
    let x2 = nmea_checksum(b2);
    lemma_checksum_update(body, i, c, 0);
    let y = body[i];
    assert(y != c ==> (x ^ y) ^ c != x) by (bit_vector);
    assert(x2 == (x ^ y) ^ c);
    assert(plain_body(b2));
    let hh = checksum_field(x);
    let t = seq![36u8] + b2 + seq![42u8] + hh;
    let n = b2.len() as int;
    assert(t.len() == n + 4);
    assert(t[0] == 36u8);
    assert(t[n + 1] == 42u8);
    assert(t[n + 2] == hh[0] && t[n + 3] == hh[1]);
    assert(t.drop_last().drop_last() =~= t.take(n + 2));
    reveal_with_fuel(last_index_of, 3);
    assert(last_index_of(t, 42u8) == Some(n + 1));
    assert(t.subrange(n + 2, n + 4) =~= hh);
    lemma_checksum_field(x);
    assert(t.drop_first() =~= b2 + (seq![42u8] + hh));
    lemma_checksum_concat(b2, seq![42u8] + hh, 0);
    assert(nmea_checksum(t) == x2);
    assert(t.last() == hh[1]);
    lemma_ascii_ends(s);
    lemma_trimmed_unchanged(s);
}

/// Only a sentence whose checksum is right is accepted: when `parse_nmea_sentence`
/// reads a sentence, the checksum it reports is the one written after the last `*`
/// and equals `compute_checksum` of the trimmed text.
pub proof fn lemma_accepted_checksum_matches(s: Seq<char>)
    ensures
        frame(utf8(trimmed(s))) matches Some(Ok(v)) ==> {
            let t = utf8(trimmed(s));
            &&& v.checksum == nmea_checksum(t)
            &&& last_index_of(t, 42u8) matches Some(star) && parse_unsigned(
                t.subrange(star + 1, t.len() as int),
                16,
                255,
            ) == Some(v.checksum as nat)
        },
{
}

/// The checksum is the XOR of the bytes before the first `*`, leaving out `$`: it is 0
/// for no bytes, a `$` changes nothing, any other byte other than `*` is XORed in, and
/// nothing from a `*` on counts.
pub proof fn lemma_checksum_steps(s: Seq<u8>, c: u8, rest: Seq<u8>)
    ensures
        nmea_checksum(Seq::empty()) == 0,
        (forall|i: int| 0 <= i < s.len() ==> s[i] != 42u8) ==> {
            &&& nmea_checksum(s + seq![36u8]) == nmea_checksum(s)
            &&& (c != 36u8 && c != 42u8 ==> nmea_checksum(s + seq![c]) == nmea_checksum(s) ^ c)
            &&& nmea_checksum(s + seq![42u8] + rest) == nmea_checksum(s)
        },
{
    if forall|i: int| 0 <= i < s.len() ==> s[i] != 42u8 {
        lemma_checksum_concat(s, seq![36u8], 0);
        lemma_checksum_concat(s, seq![c], 0);
        assert(s + seq![42u8] + rest =~= s + (seq![42u8] + rest));
        lemma_checksum_concat(s, seq![42u8] + rest, 0);
        let x = checksum_from(s, 0);
        assert(seq![36u8].drop_first() =~= Seq::<u8>::empty());
        assert(seq![c].drop_first() =~= Seq::<u8>::empty());
        assert(checksum_from(Seq::<u8>::empty(), x) == x);
        assert(checksum_from(Seq::<u8>::empty(), x ^ c) == x ^ c);
        assert(checksum_from(seq![36u8], x) == x);
        if c != 36u8 && c != 42u8 {
            assert(checksum_from(seq![c], x) == x ^ c);
        }
        assert((seq![42u8] + rest)[0] == 42u8);
        assert(checksum_from(seq![42u8] + rest, x) == x);
    }
}

/// How framing fails, for trimmed bytes `t` whose last `*` (if any) is at `k`: fewer
/// than six bytes is `TooShort`; a first byte other than `$` is
/// `MissingLeadingDollar`; no `*` at all is `MissingChecksumMarker`; text after the
/// last `*` that is not a hexadecimal number up to 255 is `InvalidChecksumHex`; and a
/// number there other than `compute_checksum` of `t` is `ChecksumMismatch` with both.
/// A sentence that frames has the right checksum, a two-byte talker followed by its
/// type making up the part before the first comma, and the other parts as fields.
pub proof fn lemma_frame_outcomes(t: Seq<u8>, k: int)
    ensures
        t.len() < 6 ==> frame(t) == Some(Err::<SentenceView, NmeaErrorView>(NmeaErrorView::TooShort)),
        t.len() >= 6 && t[0] != 36u8 ==> frame(t) == Some(
            Err::<SentenceView, NmeaErrorView>(NmeaErrorView::MissingLeadingDollar),
        ),
        t.len() >= 6 && t[0] == 36u8 && (forall|j: int| 0 <= j < t.len() ==> t[j] != 42u8)
            ==> frame(t) == Some(Err::<SentenceView, NmeaErrorView>(NmeaErrorView::MissingChecksumMarker)),
        ({
            &&& t.len() >= 6 && t[0] == 36u8
            &&& 0 <= k < t.len() && t[k] == 42u8
            &&& forall|j: int| k < j < t.len() ==> t[j] != 42u8
        }) ==> {
            let hex = t.subrange(k + 1, t.len() as int);
            &&& parse_unsigned(hex, 16, 255) is None ==> frame(t) == Some(
                Err::<SentenceView, NmeaErrorView>(NmeaErrorView::InvalidChecksumHex),
            )
            &&& parse_unsigned(hex, 16, 255) matches Some(a) ==> (a != nmea_checksum(t)
                ==> frame(t) == Some(
                Err::<SentenceView, NmeaErrorView>(
                    NmeaErrorView::ChecksumMismatch { expected: nmea_checksum(t), actual: a as u8 },
                ),
            ))
            &&& frame(t) matches Some(Ok(v)) ==> {
                let parts = split_on(t.subrange(1, k), 44u8);
                &&& parse_unsigned(hex, 16, 255) == Some(v.checksum as nat)
                &&& v.checksum == nmea_checksum(t)
                &&& v.talker.len() == 2
                &&& v.talker + v.sentence_type == parts[0]
                &&& v.sentence_type.len() >= 1
                &&& v.fields == parts.skip(1)
            }
        },
{
    lemma_last_index_of(t, 42u8);
    if t.len() >= 6 && t[0] == 36u8 && 0 <= k < t.len() && t[k] == 42u8 && forall|j: int|
        k < j < t.len() ==> t[j] != 42u8 {
        assert(last_index_of(t, 42u8) == Some(k));
        match frame(t) {
            Some(Ok(v)) => {
                let parts = split_on(t.subrange(1, k), 44u8);
                assert(v.talker + v.sentence_type =~= parts[0]);
            },
            _ => {},
        }
    }
}

} // verus!
