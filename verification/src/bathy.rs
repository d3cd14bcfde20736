//! Bathymetric soundings: the rules by which a CSV text becomes rows of soundings,
//! and the quality labels written to and read from such files.
use vstd::prelude::*;
use vstd::string::*;
use vstd::utf8::*;

use crate::sensor::ReadingQuality;
use crate::text::{
    ascii_lower, cuts_at, lemma_split_on_nonempty, lemma_trimmed_unchanged, lowercase, same_text,
    split_on, split_owned, text, texts, to_lowercase, trim, trimmed, utf8,
};

verus! {

broadcast use vstd::utf8::group_utf8_lib;

/// Errors from bathymetric operations.
#[derive(Debug, Clone, PartialEq)]
pub enum BathyError {
    CsvParseError { line: usize, message: String },
    NoRecords,
}

/// A bathymetric error with its message as characters.
pub enum BathyErrorView {
    CsvParseError { line: nat, message: Seq<char> },
    NoRecords,
}

impl View for BathyError {
    type V = BathyErrorView;

    open spec fn view(&self) -> BathyErrorView {
        match self {
            BathyError::CsvParseError { line, message } => BathyErrorView::CsvParseError {
                line: *line as nat,
                message: message@,
            },
            BathyError::NoRecords => BathyErrorView::NoRecords,
        }
    }
}

/// The label under which a quality is written in exported soundings.
pub open spec fn quality_label_text(q: ReadingQuality) -> Seq<char> {
    match q {
        ReadingQuality::Excellent => "excellent"@,
        ReadingQuality::Good => "good"@,
        ReadingQuality::Fair => "fair"@,
        ReadingQuality::Poor => "poor"@,
        ReadingQuality::Invalid => "invalid"@,
    }
}

/// The label under which a quality is written in exported soundings.
pub fn quality_label(q: ReadingQuality) -> (r: &'static str)
    ensures
        r@ == quality_label_text(q),
{
    match q {
        ReadingQuality::Excellent => "excellent",
        ReadingQuality::Good => "good",
        ReadingQuality::Fair => "fair",
        ReadingQuality::Poor => "poor",
        ReadingQuality::Invalid => "invalid",
    }
}

/// The quality that a lowercased, trimmed quality column names: `excellent`, `good`,
/// `fair` or `poor`; anything else is `Invalid`.
pub open spec fn quality_of_lowered(l: Seq<char>) -> ReadingQuality {
    if l == "excellent"@ {
        ReadingQuality::Excellent
    } else if l == "good"@ {
        ReadingQuality::Good
    } else if l == "fair"@ {
        ReadingQuality::Fair
    } else if l == "poor"@ {
        ReadingQuality::Poor
    } else {
        ReadingQuality::Invalid
    }
}

/// The quality that a CSV quality column names: its lowercase, trimmed.
pub open spec fn quality_from_text(c: Seq<char>) -> ReadingQuality {
    quality_of_lowered(trimmed(lowercase(c)))
}

/// The quality that an ASCII quality column names, its ASCII letters lowered.
pub open spec fn quality_from_ascii_text(c: Seq<char>) -> ReadingQuality {
    quality_of_lowered(trimmed(c.map_values(|ch: char| ascii_lower(ch))))
}

/// Read the quality named by an already lowercased quality column, after trimming it.
pub fn quality_of_lowercase(l: &str) -> (r: ReadingQuality)
    ensures
        r == quality_of_lowered(trimmed(l@)),
{
    let t = trim(l);
    proof {
        assert(decode_utf8(encode_utf8(t@)) == t@);
        assert(decode_utf8(encode_utf8("excellent"@)) == "excellent"@);
        assert(decode_utf8(encode_utf8("good"@)) == "good"@);
        assert(decode_utf8(encode_utf8("fair"@)) == "fair"@);
        assert(decode_utf8(encode_utf8("poor"@)) == "poor"@);
    }
    if same_text(t, "excellent") {
        ReadingQuality::Excellent
    } else if same_text(t, "good") {
        ReadingQuality::Good
    } else if same_text(t, "fair") {
        ReadingQuality::Fair
    } else if same_text(t, "poor") {
        ReadingQuality::Poor
    } else {
        ReadingQuality::Invalid
    }
}

/// Read the quality named by a CSV quality column: its lowercase, trimmed, must be
/// `excellent`, `good`, `fair` or `poor`; anything else is `Invalid`.
pub fn quality_from_label(s: &str) -> (r: ReadingQuality)
    ensures
        r == quality_from_text(s@),
        is_ascii_chars(s@) ==> r == quality_from_ascii_text(s@),
{
    let lower = to_lowercase(s);
    quality_of_lowercase(lower.as_str())
}

/// The lines of a text as `str::lines` yields them, as bytes: the parts between `\n`
/// bytes, without an empty part after a final `\n`. (A `\r` before the `\n` stays in
/// the line; every line is trimmed before use, which removes it.)
pub open spec fn lines_of(b: Seq<u8>) -> Seq<Seq<u8>> {
    if b.len() == 0 {
        Seq::empty()
    } else if b.last() == 10u8 {
        split_on(b, 10u8).drop_last()
    } else {
        split_on(b, 10u8)
    }
}

/// The decimal digits of `n`.
pub open spec fn decimal_chars(n: nat) -> Seq<char>
    decreases n,
{
    if n < 10 {
        seq![((48 + n) as u32) as char]
    } else {
        decimal_chars(n / 10).push(((48 + n % 10) as u32) as char)
    }
}

/// The instant that `chrono` reads from a timestamp text, as whole seconds since the
/// Unix epoch and nanoseconds within the second, or the text of the error it reports.
pub uninterp spec fn utc_timestamp(s: Seq<char>) -> Result<(i64, u32), Seq<char>>;

/// Calls `str::parse::<chrono::DateTime<chrono::Utc>>`, which accepts a relaxed form
/// of RFC 3339, and hands back the instant as seconds and nanoseconds, or the text
/// of the `chrono::ParseError`. The contract names that outcome; it states nothing
/// of which texts are accepted.
#[verifier::external_body]
fn parse_utc_timestamp(s: &str) -> (r: Result<(i64, u32), String>)
    ensures
        utc_timestamp(s@) == match r {
            Ok(t) => Ok(t),
            Err(m) => Err(m@),
        },
{
    match s.parse::<chrono::DateTime<chrono::Utc>>() {
        Ok(t) => Ok((t.timestamp(), t.timestamp_subsec_nanos())),
        Err(e) => Err(e.to_string()),
    }
}

/// What a timestamp column of line `line` (counted from 1) comes to, given what the
/// timestamp parser made of it: the instant, or a CSV error that names the line.
pub open spec fn timestamp_outcome(line: nat, parsed: Result<(i64, u32), Seq<char>>) -> Result<
    (i64, u32),
    BathyErrorView,
> {
    match parsed {
        Ok(t) => Ok(t),
        Err(m) => Err(BathyErrorView::CsvParseError { line, message: "invalid timestamp: "@ + m }),
    }
}

/// How the timestamp column of line `line` (counted from 1) is read.
pub open spec fn timestamp_column(line: nat, c: Seq<u8>) -> Result<(i64, u32), BathyErrorView> {
    timestamp_outcome(line, utc_timestamp(decode_utf8(c)))
}

/// Turn what the timestamp parser made of the timestamp column of line `line` into
/// the row's timestamp or its error.
pub fn timestamp_from_parse(line: usize, parsed: Result<(i64, u32), String>) -> (r: Result<
    (i64, u32),
    BathyError,
>)
    ensures
        timestamp_outcome(
            line as nat,
            match parsed {
                Ok(t) => Ok(t),
                Err(m) => Err(m@),
            },
        ) == match r {
            Ok(t) => Ok(t),
            Err(e) => Err(e@),
        },
{
    match parsed {
        Ok(t) => Ok(t),
        Err(m) => {
            let mut message = String::from_str("invalid timestamp: ");
            message.append(m.as_str());
            Err(BathyError::CsvParseError { line, message })
        },
    }
}

/// One row of soundings as read from a CSV line: the texts of latitude, longitude
/// and depth (to be read as numbers, in that order), the timestamp if the line has
/// one (an error here comes after any error in the three numbers) and the quality.
#[derive(Debug)]
pub struct CsvRow {
    pub line: usize,
    pub lat: String,
    pub lon: String,
    pub depth: String,
    pub timestamp: Option<Result<(i64, u32), BathyError>>,
    pub quality: ReadingQuality,
}

/// A CSV row with its texts as bytes.
pub struct CsvRowView {
    pub line: nat,
    pub lat: Seq<u8>,
    pub lon: Seq<u8>,
    pub depth: Seq<u8>,
    pub timestamp: Option<Result<(i64, u32), BathyErrorView>>,
    pub quality: ReadingQuality,
}

impl View for CsvRow {
    type V = CsvRowView;

    open spec fn view(&self) -> CsvRowView {
        CsvRowView {
            line: self.line as nat,
            lat: text(self.lat),
            lon: text(self.lon),
            depth: text(self.depth),
            timestamp: match self.timestamp {
                Some(Ok(t)) => Some(Ok(t)),
                Some(Err(e)) => Some(Err(e@)),
                None => None,
            },
            quality: self.quality,
        }
    }
}

/// What one CSV line comes to.
pub enum LineView {
    Skip,
    Row(CsvRowView),
    Fail(BathyErrorView),
}

/// How line `idx` (counted from 0; errors name it from 1) of a CSV text is read, given
/// its bytes: trimmed, a blank line or one that begins with `#` is skipped; otherwise
/// it must have at least three comma-separated columns `lat,lon,depth[,timestamp[,quality]]`.
/// An empty or missing timestamp is absent, another is read by `timestamp_column`;
/// an empty or missing quality is `Good`.
#[verifier::opaque]
pub open spec fn line_of(idx: nat, lb: Seq<u8>) -> LineView {
    let t = utf8(trimmed(decode_utf8(lb)));
    if t.len() == 0 || t[0] == 35u8 {
        LineView::Skip
    } else {
        let parts = split_on(t, 44u8);
        if parts.len() < 3 {
            LineView::Fail(
                BathyErrorView::CsvParseError {
                    line: idx + 1,
                    message: "expected at least 3 columns, got "@ + decimal_chars(parts.len()),
                },
            )
        } else {
            LineView::Row(
                CsvRowView {
                    line: idx + 1,
                    lat: parts[0],
                    lon: parts[1],
                    depth: parts[2],
                    timestamp: if parts.len() > 3 && parts[3].len() > 0 {
                        Some(timestamp_column(idx + 1, parts[3]))
                    } else {
                        None
                    },
                    quality: if parts.len() > 4 && parts[4].len() > 0 {
                        quality_from_text(decode_utf8(parts[4]))
                    } else {
                        ReadingQuality::Good
                    },
                },
            )
        }
    }
}

/// The rows of a CSV import and the error that ends it, if any.
pub struct CsvImport {
    pub rows: Vec<CsvRow>,
    pub error: Option<BathyError>,
}

/// A CSV import as views.
pub struct CsvImportView {
    pub rows: Seq<CsvRowView>,
    pub error: Option<BathyErrorView>,
}

/// The views of a sequence of rows.
pub open spec fn rows_view(rows: Seq<CsvRow>) -> Seq<CsvRowView> {
    rows.map_values(|r: CsvRow| r@)
}

impl View for CsvImport {
    type V = CsvImportView;

    open spec fn view(&self) -> CsvImportView {
        CsvImportView {
            rows: rows_view(self.rows@),
            error: match self.error {
                Some(e) => Some(e@),
                None => None,
            },
        }
    }
}

/// The import of the first `k` lines: rows in order, stopping at the first line that fails.
pub open spec fn import_lines(lines: Seq<Seq<u8>>, k: nat) -> CsvImportView
    decreases k,
{
    if k == 0 {
        CsvImportView { rows: Seq::empty(), error: None }
    } else {
        let before = import_lines(lines, (k - 1) as nat);
        if before.error is Some {
            before
        } else {
            match line_of((k - 1) as nat, lines[k - 1]) {
                LineView::Skip => before,
                LineView::Row(r) => CsvImportView { rows: before.rows.push(r), error: None },
                LineView::Fail(e) => CsvImportView { rows: before.rows, error: Some(e) },
            }
        }
    }
}

/// The import of a CSV text given as bytes.
pub open spec fn csv_import_of(b: Seq<u8>) -> CsvImportView {
    import_lines(lines_of(b), lines_of(b).len())
}

/// Once an import has failed, later lines change nothing.
proof fn lemma_import_stays_failed(lines: Seq<Seq<u8>>, k: nat, m: nat)
    requires
        k <= m,
        import_lines(lines, k).error is Some,
    ensures
        import_lines(lines, m) == import_lines(lines, k),
    decreases m - k,
{
    if k < m {
        lemma_import_stays_failed(lines, k, (m - 1) as nat);
    }
}

/// The column-count message for a line with `n` (1 or 2) columns.
fn columns_message(n: usize) -> (r: String)
    requires
        1 <= n <= 2,
    ensures
        r@ == "expected at least 3 columns, got "@ + decimal_chars(n as nat),
{
    let mut m = String::from_str("expected at least 3 columns, got ");
    if n == 1 {
        proof {
            reveal_strlit("1");
            assert(decimal_chars(1) =~= "1"@);
        }
        m.append("1");
    } else {
        proof {
            reveal_strlit("2");
            assert(decimal_chars(2) =~= "2"@);
        }
        m.append("2");
    }
    m
}

/// Read one CSV line (number `idx`, counted from 0).
fn read_line(idx: usize, line: &String) -> (r: Option<Result<CsvRow, BathyError>>)
    requires
        idx < usize::MAX,
    ensures
        match line_of(idx as nat, text(*line)) {
            LineView::Skip => r is None,
            LineView::Row(v) => r matches Some(Ok(row)) && row@ == v,
            LineView::Fail(e) => r matches Some(Err(err)) && err@ == e,
        },
{
    reveal(line_of);
    let t = trim(line.as_str());
    let tb = t.as_bytes();
    proof {
        assert(decode_utf8(encode_utf8(line@)) == line@);
    }
    if tb.len() == 0 || tb[0] == 35u8 {
        return None;
    }
    proof {
        assert(tb@.subrange(0, tb@.len() as int) =~= tb@);
    }
    let parts = split_owned(t, 0, tb.len(), 44u8);
    proof {
        lemma_split_on_nonempty(tb@, 44u8);
    }
    if parts.len() < 3 {
        return Some(Err(BathyError::CsvParseError { line: idx + 1, message: columns_message(parts.len()) }));
    }
    let timestamp = if parts.len() > 3 && parts[3].as_str().as_bytes().len() > 0 {
        proof {
            assert(decode_utf8(encode_utf8(parts@[3]@)) == parts@[3]@);
        }
        Some(timestamp_from_parse(idx + 1, parse_utc_timestamp(parts[3].as_str())))
    } else {
        None
    };
    let quality = if parts.len() > 4 && parts[4].as_str().as_bytes().len() > 0 {
        proof {
            assert(decode_utf8(encode_utf8(parts@[4]@)) == parts@[4]@);
        }
        quality_from_label(parts[4].as_str())
    } else {
        ReadingQuality::Good
    };
    Some(
        Ok(
            CsvRow {
                line: idx + 1,
                lat: parts[0].clone(),
                lon: parts[1].clone(),
                depth: parts[2].clone(),
                timestamp,
                quality,
            },
        ),
    )
}

/// Read the rows of soundings in a CSV text, one per line `lat,lon,depth[,timestamp[,quality]]`,
/// skipping blank lines and lines that begin with `#`. The rows come in file order and
/// stop at the first line with fewer than three columns, whose error is returned too.
pub fn read_csv_rows(csv: &str) -> (r: CsvImport)
    ensures
        r@ == csv_import_of(csv.spec_bytes()),
{
    let b = csv.as_bytes();
    let n = b.len();
    let ghost cb = b@;
    proof {
        assert(cb.subrange(0, n as int) =~= cb);
        assert(valid_utf8(cb));
        crate::text::lemma_cut_at_start(cb);
    }
    assert(cuts_at(cb, 0) && cuts_at(cb, n as int));
    let mut lines = split_owned(csv, 0, n, 10u8);
    proof {
        lemma_split_on_nonempty(cb, 10u8);
    }
    if n == 0 {
        let _ = lines.pop();
    } else if b[n - 1] == 10u8 {
        let _ = lines.pop();
    }
    let ghost ls = texts(lines@);
    proof {
        assert(ls =~= lines_of(cb));
    }
    let mut rows: Vec<CsvRow> = Vec::new();
    let mut k: usize = 0;
    proof {
        assert(rows_view(rows@) =~= Seq::<CsvRowView>::empty());
    }
    while k < lines.len()
        invariant
            k <= lines.len(),
            ls == texts(lines@),
            ls == lines_of(cb),
            cb == csv.spec_bytes(),
            import_lines(ls, k as nat) == (CsvImportView { rows: rows_view(rows@), error: None }),
        decreases lines.len() - k,
    {
        let out = read_line(k, &lines[k]);
        let ghost before = rows@;
        proof {
            assert(ls[k as int] == text(lines@[k as int]));
        }
        match out {
            None => {},
            Some(Ok(row)) => {
                rows.push(row);
                proof {
                    assert(rows_view(rows@) =~= rows_view(before).push(row@));
                }
            },
            Some(Err(e)) => {
                proof {
                    lemma_import_stays_failed(ls, (k + 1) as nat, ls.len());
                }
                return CsvImport { rows, error: Some(e) };
            },
        }
        k = k + 1;
    }
    CsvImport { rows, error: None }
}

/// The label of a quality, lowered and trimmed, names that quality.
proof fn lemma_label_reads_back(q: ReadingQuality)
    ensures
        trimmed(quality_label_text(q).map_values(|ch: char| ascii_lower(ch))) == quality_label_text(q),
{
    reveal_strlit("excellent");
    reveal_strlit("good");
    reveal_strlit("fair");
    reveal_strlit("poor");
    reveal_strlit("invalid");
    let l = quality_label_text(q);
    assert(l.map_values(|ch: char| ascii_lower(ch)) =~= l);
    lemma_trimmed_unchanged(l);
}

/// Exported quality labels import as the same quality: the label that `quality_label`
/// writes for `q` is read back by `quality_from_label` as `q`.
pub proof fn lemma_quality_label_round_trip(q: ReadingQuality)
    ensures
        is_ascii_chars(quality_label_text(q)),
        quality_from_ascii_text(quality_label_text(q)) == q,
{
    reveal_strlit("excellent");
    reveal_strlit("good");
    reveal_strlit("fair");
    reveal_strlit("poor");
    reveal_strlit("invalid");
    lemma_label_reads_back(q);
    assert("excellent"@ != "good"@);
    assert("excellent"@ != "fair"@);
    assert("excellent"@ != "poor"@);
    assert("good"@[0] != "fair"@[0]);
    assert("good"@[0] != "poor"@[0]);
    assert("fair"@ != "poor"@ && "fair"@[0] != "poor"@[0]);
    assert("invalid"@ != "excellent"@ && "invalid"@ != "good"@);
    assert("invalid"@ != "fair"@ && "invalid"@ != "poor"@);
}

/// The rows and error of an import of lines up to `k` come in line order.
pub open spec fn in_line_order(v: CsvImportView, k: nat) -> bool {
    &&& forall|i: int, j: int|
        0 <= i < j < v.rows.len() ==> #[trigger] v.rows[i].line < #[trigger] v.rows[j].line
    &&& forall|i: int| 0 <= i < v.rows.len() ==> 1 <= #[trigger] v.rows[i].line <= k
    &&& v.error matches Some(e) ==> (e matches BathyErrorView::CsvParseError { line, .. } && 1 <= line
        <= k && forall|i: int| 0 <= i < v.rows.len() ==> #[trigger] v.rows[i].line < line)
}

proof fn lemma_import_lines_in_order(lines: Seq<Seq<u8>>, k: nat)
    ensures
        in_line_order(import_lines(lines, k), k),
    decreases k,
{
    reveal(line_of);
    if k > 0 {
        lemma_import_lines_in_order(lines, (k - 1) as nat);
        let before = import_lines(lines, (k - 1) as nat);
        let now = import_lines(lines, k);
        if before.error is None {
            match line_of((k - 1) as nat, lines[k - 1]) {
                LineView::Row(r) => {
                    assert(r.line == k);
                    assert forall|i: int, j: int|
                        0 <= i < j < now.rows.len() implies #[trigger] now.rows[i].line
                        < #[trigger] now.rows[j].line by {
                        if j == now.rows.len() - 1 {
                            assert(now.rows[i] == before.rows[i]);
                        } else {
                            assert(now.rows[i] == before.rows[i]);
                            assert(now.rows[j] == before.rows[j]);
                        }
                    }
                    assert forall|i: int| 0 <= i < now.rows.len() implies 1 <= #[trigger] now.rows[i].line <= k by {
                        if i < now.rows.len() - 1 {
                            assert(now.rows[i] == before.rows[i]);
                        }
                    }
                },
                _ => {},
            }
        }
    }
}

/// An import keeps the order of the file: its rows come from lines in strictly
/// increasing order, each line number (counted from 1) is at most the number of lines,
/// and an error names a line after every row's line.
pub proof fn lemma_import_in_line_order(b: Seq<u8>)
    ensures
        in_line_order(csv_import_of(b), lines_of(b).len()),
{
    lemma_import_lines_in_order(lines_of(b), lines_of(b).len());
}

/// What one CSV line comes to, stated over the line trimmed of whitespace: a blank
/// line or one starting with `#` is skipped; a line of fewer than three
/// comma-separated columns fails with a `CsvParseError` naming its line (counted from
/// 1) and its column count; any other line is a row of that line whose latitude,
/// longitude and depth are its first three columns, with a timestamp exactly when
/// the fourth column is present and not empty, and with quality `Good` unless the
/// fifth column is present and not empty, when it is the quality that column names.
pub proof fn lemma_line_outcomes(idx: nat, lb: Seq<u8>)
    ensures
        ({
            let t = utf8(trimmed(decode_utf8(lb)));
            let cols = split_on(t, 44u8);
            &&& (t.len() == 0 || t[0] == 35u8) ==> line_of(idx, lb) == LineView::Skip
            &&& (t.len() > 0 && t[0] != 35u8 && cols.len() < 3) ==> line_of(idx, lb) == LineView::Fail(
                BathyErrorView::CsvParseError {
                    line: idx + 1,
                    message: "expected at least 3 columns, got "@ + decimal_chars(cols.len()),
                },
            )
            &&& (t.len() > 0 && t[0] != 35u8 && cols.len() >= 3) ==> (line_of(idx, lb) matches LineView::Row(r) && {
                &&& r.line == idx + 1
                &&& r.lat == cols[0] && r.lon == cols[1] && r.depth == cols[2]
                &&& (r.timestamp is Some <==> cols.len() > 3 && cols[3].len() > 0)
                &&& (cols.len() <= 4 || cols[4].len() == 0) ==> r.quality == ReadingQuality::Good
                &&& (cols.len() > 4 && cols[4].len() > 0) ==> r.quality == quality_from_text(
                    decode_utf8(cols[4]),
                )
            })
        }),
{
    reveal(line_of);
}

/// Skipped lines leave an import unchanged: adding a blank or comment line at the end
/// of the lines read changes neither the rows nor the error.
pub proof fn lemma_skipped_line_changes_nothing(lines: Seq<Seq<u8>>, k: nat)
    requires
        k < lines.len(),
        ({
            let t = utf8(trimmed(decode_utf8(lines[k as int])));
            t.len() == 0 || t[0] == 35u8
        }),
    ensures
        import_lines(lines, k + 1) == import_lines(lines, k),
{
    reveal(line_of);
}

} // verus!
