//! Byte-level text helpers shared by the parsers: UTF-8 cut points, trimming,
//! splitting at a separator byte and integer parsing as `str::parse` does it.
use vstd::prelude::*;
use vstd::utf8::*;
use vstd::string::*;

verus! {

broadcast use vstd::utf8::group_utf8_lib;

/// The UTF-8 bytes of a character sequence.
pub open spec fn utf8(s: Seq<char>) -> Seq<u8> {
    encode_utf8(s)
}

/// The UTF-8 bytes of a `String`.
pub open spec fn text(s: String) -> Seq<u8> {
    encode_utf8(s@)
}

/// The UTF-8 bytes of each string of a sequence.
pub open spec fn texts(v: Seq<String>) -> Seq<Seq<u8>> {
    v.map_values(|s: String| text(s))
}

/// Whether a string slice may be cut at byte index `i` of its bytes `b`:
/// the end of `b`, or a byte that begins a character.
pub open spec fn cuts_at(b: Seq<u8>, i: int) -> bool {
    i == b.len() || (0 <= i < b.len() && !is_continuation_byte(b[i]))
}

/// In valid UTF-8, the byte after an ASCII byte begins a character or ends the sequence.
pub proof fn lemma_cut_after_ascii(b: Seq<u8>, i: int)
    requires
        valid_utf8(b),
        0 <= i < b.len(),
        b[i] < 0x80,
    ensures
        cuts_at(b, i),
        cuts_at(b, i + 1),
{
    is_char_boundary_iff_not_is_continuation_byte(b, i);
    valid_utf8_split(b, i);
    let suf = b.subrange(i, b.len() as int);
    assert(valid_utf8(suf));
    assert(suf[0] == b[i]);
    assert(length_of_first_scalar(suf) == 1);
    let rest = pop_first_scalar(suf);
    assert(rest =~= b.subrange(i + 1, b.len() as int));
    if i + 1 < b.len() {
        assert(valid_utf8(rest));
        assert(rest[0] == b[i + 1]);
        assert(valid_first_scalar(rest));
    }
}

/// A valid UTF-8 sequence may be cut at its start.
pub proof fn lemma_cut_at_start(b: Seq<u8>)
    requires
        valid_utf8(b),
    ensures
        cuts_at(b, 0),
{
    if b.len() > 0 {
        assert(valid_first_scalar(b));
    }
}

/// The bytes `start..end` of `s` as a string slice.
pub fn substring(s: &str, start: usize, end: usize) -> (r: &str)
    requires
        start <= end <= s.spec_bytes().len(),
        cuts_at(s.spec_bytes(), start as int),
        cuts_at(s.spec_bytes(), end as int),
    ensures
        r.spec_bytes() == s.spec_bytes().subrange(start as int, end as int),
{
    let ghost b = s.spec_bytes();
    proof {
        assert(valid_utf8(encode_utf8(s@)));
        is_char_boundary_start_end_of_seq(b);
        if start < b.len() {
            is_char_boundary_iff_not_is_continuation_byte(b, start as int);
        }
    }
    let (_, rest) = s.split_at(start);
    let ghost rb = rest.spec_bytes();
    proof {
        assert(valid_utf8(encode_utf8(rest@)));
        is_char_boundary_start_end_of_seq(rb);
        if end < b.len() {
            assert(rb[end - start] == b[end as int]);
            is_char_boundary_iff_not_is_continuation_byte(rb, end - start);
        }
    }
    let (mid, _) = rest.split_at(end - start);
    proof {
        assert(mid.spec_bytes() =~= b.subrange(start as int, end as int));
    }
    mid
}

/// The bytes `start..end` of `s` as an owned `String`.
pub fn substring_owned(s: &str, start: usize, end: usize) -> (r: String)
    requires
        start <= end <= s.spec_bytes().len(),
        cuts_at(s.spec_bytes(), start as int),
        cuts_at(s.spec_bytes(), end as int),
    ensures
        text(r) == s.spec_bytes().subrange(start as int, end as int),
{
    let piece = substring(s, start, end);
    String::from_str(piece)
}

/// Whether `c` has the Unicode `White_Space` property, as `char::is_whitespace` tests.
pub open spec fn is_whitespace(c: char) -> bool {
    let u = c as u32;
    ||| 0x9 <= u <= 0xd
    ||| u == 0x20
    ||| u == 0x85
    ||| u == 0xa0
    ||| u == 0x1680
    ||| 0x2000 <= u <= 0x200a
    ||| u == 0x2028
    ||| u == 0x2029
    ||| u == 0x202f
    ||| u == 0x205f
    ||| u == 0x3000
}

/// `s` without its leading whitespace.
pub open spec fn trim_start(s: Seq<char>) -> Seq<char>
    decreases s.len(),
{
    if s.len() > 0 && is_whitespace(s[0]) {
        trim_start(s.drop_first())
    } else {
        s
    }
}

/// `s` without its trailing whitespace.
pub open spec fn trim_end(s: Seq<char>) -> Seq<char>
    decreases s.len(),
{
    if s.len() > 0 && is_whitespace(s.last()) {
        trim_end(s.drop_last())
    } else {
        s
    }
}

/// `s` without its leading and trailing whitespace.
pub open spec fn trimmed(s: Seq<char>) -> Seq<char> {
    trim_end(trim_start(s))
}

/// Calls `str::trim`, whose documentation says that it returns the slice with
/// leading and trailing characters of the `White_Space` property removed; the
/// contract states exactly that.
#[verifier::external_body]
pub(crate) fn trim(s: &str) -> (r: &str)
    ensures
        r@ == trimmed(s@),
{
    s.trim()
}

/// Whether two strings hold the same bytes.
pub fn same_text(a: &str, b: &str) -> (r: bool)
    ensures
        r == (a.spec_bytes() == b.spec_bytes()),
{
    let x = a.as_bytes();
    let y = b.as_bytes();
    if x.len() != y.len() {
        return false;
    }
    let mut i: usize = 0;
    while i < x.len()
        invariant
            x@ == a.spec_bytes(),
            y@ == b.spec_bytes(),
            x.len() == y.len(),
            i <= x.len(),
            forall|j: int| 0 <= j < i ==> x@[j] == y@[j],
        decreases x.len() - i,
    {
        if x[i] != y[i] {
            return false;
        }
        i = i + 1;
    }
    assert(x@ =~= y@);
    true
}

/// The parts of `b` between the bytes equal to `sep`, as `str::split` yields them:
/// there is always at least one part.
pub open spec fn split_on(b: Seq<u8>, sep: u8) -> Seq<Seq<u8>>
    decreases b.len(),
{
    if b.len() == 0 {
        seq![Seq::<u8>::empty()]
    } else {
        let front = split_on(b.drop_last(), sep);
        if b.last() == sep {
            front.push(Seq::<u8>::empty())
        } else {
            front.update(front.len() - 1, front.last().push(b.last()))
        }
    }
}

/// `split_on` never yields an empty list.
pub proof fn lemma_split_on_nonempty(b: Seq<u8>, sep: u8)
    ensures
        split_on(b, sep).len() >= 1,
    decreases b.len(),
{
    if b.len() > 0 {
        lemma_split_on_nonempty(b.drop_last(), sep);
    }
}

/// Split the bytes `start..end` of `s` at every byte `sep` (an ASCII byte) into owned strings.
pub fn split_owned(s: &str, start: usize, end: usize, sep: u8) -> (r: Vec<String>)
    requires
        start <= end <= s.spec_bytes().len(),
        cuts_at(s.spec_bytes(), start as int),
        cuts_at(s.spec_bytes(), end as int),
        sep < 0x80,
    ensures
        texts(r@) == split_on(s.spec_bytes().subrange(start as int, end as int), sep),
{
    let b = s.as_bytes();
    let ghost whole = s.spec_bytes();
    let mut parts: Vec<String> = Vec::new();
    let mut part_start = start;
    let mut i = start;
    proof {
        assert(whole.subrange(start as int, start as int) =~= Seq::<u8>::empty());
        assert(texts(parts@) =~= Seq::<Seq<u8>>::empty());
        assert(split_on(Seq::<u8>::empty(), sep) == seq![Seq::<u8>::empty()]);
    }
    while i < end
        invariant
            b@ == whole,
            whole == s.spec_bytes(),
            start <= part_start <= i <= end <= whole.len(),
            cuts_at(whole, start as int),
            cuts_at(whole, end as int),
            cuts_at(whole, part_start as int),
            sep < 0x80,
            texts(parts@).push(whole.subrange(part_start as int, i as int)) == split_on(
                whole.subrange(start as int, i as int),
                sep,
            ),
        decreases end - i,
    {
        let ghost old_parts = texts(parts@);
        proof {
            let pre = whole.subrange(start as int, i as int + 1);
            assert(pre.drop_last() =~= whole.subrange(start as int, i as int));
            assert(pre.last() == whole[i as int]);
        }
        if b[i] == sep {
            let ghost old_start = part_start;
            let ghost old_seq = parts@;
            assert(!is_continuation_byte(whole[i as int]));
            let piece = substring_owned(s, part_start, i);
            parts.push(piece);
            assert(parts@ == old_seq.push(piece));
            assert(texts(parts@) =~= texts(old_seq).push(text(piece)));
            part_start = i + 1;
            proof {
                lemma_cut_after_ascii(whole, i as int);
                assert(texts(parts@) =~= old_parts.push(whole.subrange(old_start as int, i as int)));
                assert(whole.subrange(part_start as int, i as int + 1) =~= Seq::<u8>::empty());
                assert(texts(parts@).push(whole.subrange(part_start as int, i as int + 1)) =~= split_on(
                    whole.subrange(start as int, i as int + 1),
                    sep,
                ));
            }
        } else {
            proof {
                assert(whole.subrange(part_start as int, i as int + 1) =~= whole.subrange(
                    part_start as int,
                    i as int,
                ).push(whole[i as int]));
                assert(texts(parts@).push(whole.subrange(part_start as int, i as int + 1)) =~= split_on(
                    whole.subrange(start as int, i as int + 1),
                    sep,
                ));
            }
        }
        i = i + 1;
    }
    let last = substring_owned(s, part_start, end);
    let ghost before = parts@;
    parts.push(last);
    proof {
        assert(parts@ == before.push(last));
        assert(texts(parts@) =~= texts(before).push(text(last)));
    }
    parts
}

/// The value of byte `c` as a digit in `radix` (at most 36), as `char::to_digit`
/// gives it, or -1 when `c` is no such digit.
pub open spec fn digit_of(c: u8, radix: nat) -> int {
    let v: int = if 48 <= c <= 57 {
        c - 48
    } else if 97 <= c <= 122 {
        c - 87
    } else if 65 <= c <= 90 {
        c - 55
    } else {
        36
    };
    if v < radix {
        v
    } else {
        -1
    }
}

/// Every byte of `d` is a digit in `radix`.
pub open spec fn all_digits(d: Seq<u8>, radix: nat) -> bool {
    forall|i: int| 0 <= i < d.len() ==> digit_of(#[trigger] d[i], radix) >= 0
}

/// The number that the digits `d` write in `radix`, most significant first.
pub open spec fn digits_value(d: Seq<u8>, radix: nat) -> nat
    decreases d.len(),
{
    if d.len() == 0 {
        0
    } else {
        (digits_value(d.drop_last(), radix) * radix + digit_of(d.last(), radix)) as nat
    }
}

/// The number written by `d`, which must be one or more digits in `radix`, if it is at most `max`.
pub open spec fn parse_digits(d: Seq<u8>, radix: nat, max: nat) -> Option<nat> {
    if d.len() > 0 && all_digits(d, radix) && digits_value(d, radix) <= max {
        Some(digits_value(d, radix))
    } else {
        None
    }
}

/// What `from_str_radix` (and `str::parse` in radix 10) gives for an unsigned
/// integer type whose largest value is `max`: an optional `+`, then one or more digits.
pub open spec fn parse_unsigned(s: Seq<u8>, radix: nat, max: nat) -> Option<nat> {
    if s.len() > 0 && s[0] == 43u8 {
        parse_digits(s.drop_first(), radix, max)
    } else {
        parse_digits(s, radix, max)
    }
}

/// What `str::parse::<i32>` gives: an optional sign, then one or more decimal digits,
/// in the range of `i32`.
pub open spec fn parse_i32(s: Seq<u8>) -> Option<int> {
    if s.len() > 0 && s[0] == 45u8 {
        match parse_digits(s.drop_first(), 10, 0x8000_0000) {
            Some(v) => Some(-v),
            None => None,
        }
    } else {
        match parse_unsigned(s, 10, 0x7fff_ffff) {
            Some(v) => Some(v as int),
            None => None,
        }
    }
}

/// An optional `u32` as an optional natural number.
pub open spec fn opt_nat(r: Option<u32>) -> Option<nat> {
    match r {
        Some(v) => Some(v as nat),
        None => None,
    }
}

/// A prefix of a digit string never writes a larger number than the whole.
pub proof fn lemma_digits_prefix_le(d: Seq<u8>, radix: nat, k: int)
    requires
        0 <= k <= d.len(),
        radix >= 1,
        all_digits(d, radix),
    ensures
        digits_value(d.take(k), radix) <= digits_value(d, radix),
    decreases d.len(),
{
    if k == d.len() {
        assert(d.take(k) =~= d);
    } else {
        assert forall|i: int| 0 <= i < d.drop_last().len() implies digit_of(#[trigger] d.drop_last()[i], radix) >= 0 by {
            assert(d.drop_last()[i] == d[i]);
        }
        lemma_digits_prefix_le(d.drop_last(), radix, k);
        assert(d.drop_last().take(k) =~= d.take(k));
        assert(digit_of(d[d.len() - 1], radix) >= 0);
        let v = digits_value(d.drop_last(), radix);
        assert(v * radix >= v) by (nonlinear_arith)
            requires
                radix >= 1,
        ;
    }
}

/// The digit value of byte `c` in `radix`, or `radix` or more when `c` is no digit.
fn digit_value(c: u8, radix: u32) -> (r: u32)
    requires
        2 <= radix <= 36,
    ensures
        r < radix ==> r == digit_of(c, radix as nat),
        r >= radix ==> digit_of(c, radix as nat) == -1,
{
    let v: u32 = if 48 <= c && c <= 57 {
        (c - 48) as u32
    } else if 97 <= c && c <= 122 {
        (c - 87) as u32
    } else if 65 <= c && c <= 90 {
        (c - 55) as u32
    } else {
        36
    };
    v
}

/// Read the digits `start..end` of `s` in `radix` as a number of at most `max`.
pub fn parse_digits_in(s: &[u8], start: usize, end: usize, radix: u32, max: u32) -> (r: Option<u32>)
    requires
        start <= end <= s@.len(),
        2 <= radix <= 36,
    ensures
        opt_nat(r) == parse_digits(s@.subrange(start as int, end as int), radix as nat, max as nat),
{
    let ghost d = s@.subrange(start as int, end as int);
    if start == end {
        return None;
    }
    let mut acc: u64 = 0;
    let mut i = start;
    while i < end
        invariant
            start <= i <= end <= s@.len(),
            2 <= radix <= 36,
            d == s@.subrange(start as int, end as int),
            acc <= max,
            acc == digits_value(s@.subrange(start as int, i as int), radix as nat),
            all_digits(s@.subrange(start as int, i as int), radix as nat),
        decreases end - i,
    {
        let ghost pre = s@.subrange(start as int, i as int + 1);
        proof {
            assert(pre.drop_last() =~= s@.subrange(start as int, i as int));
            assert(pre.last() == s@[i as int]);
            assert(d.take(i - start + 1) =~= pre);
        }
        let v = digit_value(s[i], radix);
        if v >= radix {
            proof {
                assert(d[i - start] == s@[i as int]);
                assert(!all_digits(d, radix as nat));
            }
            return None;
        }
        assert(acc * (radix as u64) <= 0xffff_ffffu64 * 36) by (nonlinear_arith)
            requires
                acc <= 0xffff_ffffu64,
                radix <= 36,
        ;
        let next: u64 = acc * (radix as u64) + (v as u64);
        if next > max as u64 {
            proof {
                if all_digits(d, radix as nat) {
                    lemma_digits_prefix_le(d, radix as nat, i - start + 1);
                }
            }
            return None;
        }
        acc = next;
        i = i + 1;
        proof {
            assert forall|j: int| 0 <= j < pre.len() implies digit_of(#[trigger] pre[j], radix as nat) >= 0 by {
                if j < pre.len() - 1 {
                    assert(pre[j] == s@.subrange(start as int, i as int - 1)[j]);
                }
            }
        }
    }
    assert(s@.subrange(start as int, i as int) =~= d);
    Some(acc as u32)
}

/// Read bytes `start..end` of `s` as `from_str_radix` does for an unsigned type whose largest value is `max`.
pub fn parse_unsigned_in(s: &[u8], start: usize, end: usize, radix: u32, max: u32) -> (r: Option<u32>)
    requires
        start <= end <= s@.len(),
        2 <= radix <= 36,
    ensures
        opt_nat(r) == parse_unsigned(s@.subrange(start as int, end as int), radix as nat, max as nat),
{
    let ghost t = s@.subrange(start as int, end as int);
    if start < end && s[start] == 43u8 {
        assert(t.drop_first() =~= s@.subrange(start + 1, end as int));
        parse_digits_in(s, start + 1, end, radix, max)
    } else {
        parse_digits_in(s, start, end, radix, max)
    }
}

/// Read bytes `start..end` of `s` as `str::parse::<i32>` does.
pub fn parse_i32_in(s: &[u8], start: usize, end: usize) -> (r: Option<i32>)
    requires
        start <= end <= s@.len(),
    ensures
        r matches Some(v) ==> parse_i32(s@.subrange(start as int, end as int)) == Some(v as int),
        r is None ==> parse_i32(s@.subrange(start as int, end as int)) is None,
{
    let ghost t = s@.subrange(start as int, end as int);
    if start < end && s[start] == 45u8 {
        assert(t.drop_first() =~= s@.subrange(start + 1, end as int));
        match parse_digits_in(s, start + 1, end, 10, 0x8000_0000) {
            Some(v) => {
                let w: i64 = 0i64 - (v as i64);
                Some(w as i32)
            },
            None => None,
        }
    } else {
        match parse_unsigned_in(s, start, end, 10, 0x7fff_ffff) {
            Some(v) => Some(v as i32),
            None => None,
        }
    }
}

/// The bytes of an optional `String`.
pub open spec fn opt_text(o: Option<String>) -> Option<Seq<u8>> {
    match o {
        Some(s) => Some(text(s)),
        None => None,
    }
}

/// Pushing a string adds its bytes at the end of the texts.
pub proof fn lemma_texts_push(v: Seq<String>, x: String)
    ensures
        texts(v.push(x)) == texts(v).push(text(x)),
{
    assert(texts(v.push(x)) =~= texts(v).push(text(x)));
}

/// The ASCII lowercase of a character: `A`–`Z` become `a`–`z`, others stay.
pub open spec fn ascii_lower(c: char) -> char {
    if 'A' <= c <= 'Z' {
        ((c as u32) + 32) as char
    } else {
        c
    }
}

/// The lowercase of `s` as `str::to_lowercase` gives it (Unicode lowercase mapping).
pub uninterp spec fn lowercase(s: Seq<char>) -> Seq<char>;

/// Calls `str::to_lowercase`, whose documentation says that it returns the Unicode
/// lowercase equivalent of the string. The contract names that result; of an ASCII
/// string it states that uppercase letters become lowercase and other characters
/// stay, which is what the Unicode lowercase mapping does to ASCII. The mapping of
/// other characters is not stated.
#[verifier::external_body]
pub(crate) fn to_lowercase(s: &str) -> (r: String)
    ensures
        r@ == lowercase(s@),
        is_ascii_chars(s@) ==> r@ == s@.map_values(|c: char| ascii_lower(c)),
{
    s.to_lowercase()
}

/// The first part of `split_on(b, sep)` is no longer than `b`, and is all of `b`
/// when `b` holds no `sep`.
pub proof fn lemma_split_on_first(b: Seq<u8>, sep: u8)
    ensures
        split_on(b, sep).len() >= 1,
        split_on(b, sep)[0].len() <= b.len(),
        (forall|i: int| 0 <= i < b.len() ==> b[i] != sep) ==> split_on(b, sep) == seq![b],
    decreases b.len(),
{
    lemma_split_on_nonempty(b, sep);
    if b.len() == 0 {
        assert(b =~= Seq::<u8>::empty());
    } else {
        lemma_split_on_first(b.drop_last(), sep);
        lemma_split_on_nonempty(b.drop_last(), sep);
        let front = split_on(b.drop_last(), sep);
        if b.last() != sep {
            if front.len() > 1 {
                assert(split_on(b, sep)[0] == front[0]);
            }
            if forall|i: int| 0 <= i < b.len() ==> b[i] != sep {
                assert forall|i: int| 0 <= i < b.drop_last().len() implies b.drop_last()[i] != sep by {
                    assert(b.drop_last()[i] == b[i]);
                }
                assert(front == seq![b.drop_last()]);
                assert(b.drop_last().push(b.last()) =~= b);
                assert(split_on(b, sep) =~= seq![b]);
            }
        } else {
            assert(split_on(b, sep)[0] == front[0]);
        }
    }
}

/// A single ASCII byte decodes to one character with that code.
pub proof fn lemma_decode_ascii_byte(c: u8)
    requires
        c < 0x80,
    ensures
        decode_utf8(seq![c]).len() == 1,
        decode_utf8(seq![c])[0] as u32 == c as u32,
{
    assert((c & 0x7f) as u32 == c as u32) by (bit_vector)
        requires
            c < 0x80,
    ;
    let b = seq![c];
    assert(b[0] == c);
    assert(is_leading_byte_width_1(b[0]));
    assert(decode_first_codepoint(b) == c as u32);
    assert(valid_first_scalar(b));
    assert(pop_first_scalar(b) =~= Seq::<u8>::empty());
    assert(valid_utf8(Seq::<u8>::empty()));
    assert(valid_utf8(b));
    assert(decode_utf8(b) =~= seq![decode_first_scalar(b) as char] + decode_utf8(Seq::<u8>::empty()));
    let u = decode_first_scalar(b);
    assert(u == c as u32);
    assert(is_scalar(u));
    assert((u as char) as u32 == u);
}

/// When the UTF-8 bytes of `s` begin and end with ASCII bytes, the first and last
/// characters of `s` have those codes.
pub proof fn lemma_ascii_ends(s: Seq<char>)
    requires
        utf8(s).len() > 0,
        utf8(s)[0] < 0x80,
        utf8(s).last() < 0x80,
    ensures
        s.len() > 0,
        s[0] as u32 == utf8(s)[0] as u32,
        s.last() as u32 == utf8(s).last() as u32,
{
    let b = utf8(s);
    let n = b.len() as int;
    assert(decode_utf8(b) == s);
    assert(valid_utf8(b));
    lemma_cut_after_ascii(b, 0);
    is_char_boundary_start_end_of_seq(b);
    if 1 < n {
        is_char_boundary_iff_not_is_continuation_byte(b, 1);
    }
    decode_utf8_split(b, 1);
    assert(b.subrange(0, 1) =~= seq![b[0]]);
    lemma_decode_ascii_byte(b[0]);
    is_char_boundary_iff_not_is_continuation_byte(b, n - 1);
    decode_utf8_split(b, n - 1);
    assert(b.subrange(n - 1, n) =~= seq![b[n - 1]]);
    lemma_decode_ascii_byte(b[n - 1]);
}

/// A string whose first and last characters are not whitespace is its own trim.
pub proof fn lemma_trimmed_unchanged(s: Seq<char>)
    requires
        s.len() > 0,
        !is_whitespace(s[0]),
        !is_whitespace(s.last()),
    ensures
        trimmed(s) == s,
{
    assert(trim_start(s) == s);
}

} // verus!
