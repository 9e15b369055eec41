//! Decoding protocol values from a byte buffer.

use vstd::prelude::*;
use vstd::slice::{slice_subrange, slice_to_vec};
use vstd::utf8::{decode_utf8, encode_scalar, encode_utf8, is_ascii_chars, valid_utf8};
use bytes::BytesMut;
use crate::value::{Frame, Value, crlf, decimal, digit_chars, encoding, frames, lemma_frames};

verus! {

broadcast use vstd::slice::group_slice_axioms;

/// The `bytes` crate's growable byte buffer, which a connection reads into;
/// proofs see its contents through `buffer_bytes`.
#[verifier::external_type_specification]
#[verifier::external_body]
pub struct ExBytesMut(bytes::BytesMut);

/// The bytes that a buffer holds.
pub uninterp spec fn buffer_bytes(b: BytesMut) -> Seq<u8>;

/// Relies on `BytesMut`'s `AsRef<[u8]>`: the slice is the buffer's contents.
#[verifier::external_body]
fn contents(buffer: &BytesMut) -> (r: &[u8])
    ensures
        r@ == buffer_bytes(*buffer),
{
    buffer.as_ref()
}

/// Relies on std's `String::from_utf8`: the bytes as text when they are valid
/// UTF-8, and nothing otherwise.
#[verifier::external_body]
fn text_of(bytes: Vec<u8>) -> (r: Option<String>)
    ensures
        match r {
            Some(s) => valid_utf8(bytes@) && s@ == decode_utf8(bytes@),
            None => !valid_utf8(bytes@),
        },
{
    String::from_utf8(bytes).ok()
}

/// Why a buffer does not start with a value.
#[derive(Clone, Copy, Debug, PartialEq, Eq, Structural)]
pub enum ParseError {
    /// The buffer ends before the value does; more bytes may complete it.
    Incomplete,
    /// The first byte names no kind of value.
    UnrecognizedType,
    /// A length is not a decimal number in range.
    MalformedLength,
    /// A text is not valid UTF-8.
    InvalidText,
}

impl ParseError {
    /// The error's message.
    pub fn message(&self) -> (r: &'static str)
        ensures
            *self == ParseError::Incomplete ==> r@ == "incomplete message"@,
            *self == ParseError::UnrecognizedType ==> r@ == "unrecognized message type"@,
            *self == ParseError::MalformedLength ==> r@ == "malformed length"@,
            *self == ParseError::InvalidText ==> r@ == "invalid text"@,
    {
        match self {
            ParseError::Incomplete => "incomplete message",
            ParseError::UnrecognizedType => "unrecognized message type",
            ParseError::MalformedLength => "malformed length",
            ParseError::InvalidText => "invalid text",
        }
    }
}

/// The largest length that a header may declare.
pub const LENGTH_MAX: u64 = 0x7fff_ffff_ffff_ffff;

/// A carriage return then a line feed stand at `i`.
pub open spec fn is_crlf(b: Seq<u8>, i: int) -> bool {
    0 <= i && i + 1 < b.len() && b[i] == 13 && b[i + 1] == 10
}

/// Where the first line terminator at or after `from` starts.
pub open spec fn line_end(b: Seq<u8>, from: int) -> Option<int>
    decreases b.len() - from,
{
    if from < 0 || from + 1 >= b.len() {
        None
    } else if is_crlf(b, from) {
        Some(from)
    } else {
        line_end(b, from + 1)
    }
}

/// A non-empty run of ASCII digits.
pub open spec fn is_digits(s: Seq<u8>) -> bool {
    s.len() > 0 && forall|i: int| 0 <= i < s.len() ==> 48 <= #[trigger] s[i] <= 57
}

/// The number that ASCII digits spell.
pub open spec fn digits_value(s: Seq<u8>) -> nat
    decreases s.len(),
{
    if s.len() == 0 {
        0
    } else {
        digits_value(s.drop_last()) * 10 + (s.last() - 48) as nat
    }
}

/// The number that ASCII digits spell, when it is at most `max`.
pub open spec fn number_within(line: Seq<u8>, max: u64) -> Option<nat> {
    if is_digits(line) && digits_value(line) <= max {
        Some(digits_value(line))
    } else {
        None
    }
}

/// The length that a header line declares: digits, at most `LENGTH_MAX`.
pub open spec fn length_of(line: Seq<u8>) -> Option<nat> {
    number_within(line, LENGTH_MAX)
}

/// The header of a null value: `-1`.
pub open spec fn null_length() -> Seq<u8> {
    seq![45u8, 49u8]
}

/// The text that bytes hold, or why they hold none.
pub open spec fn text_spec(t: Seq<u8>) -> Result<Seq<char>, ParseError> {
    if valid_utf8(t) {
        Ok(decode_utf8(t))
    } else {
        Err(ParseError::InvalidText)
    }
}

/// The value that starts at `pos`, with the position just after it.
pub open spec fn parse_at(b: Seq<u8>, pos: int) -> Result<(Frame, int), ParseError>
    decreases b.len() - pos, 0int, 0nat
        via parse_at_decreases
{
    if pos < 0 || pos >= b.len() {
        Err(ParseError::Incomplete)
    } else if b[pos] == 43 || b[pos] == 58 {
        match line_end(b, pos + 1) {
            None => Err(ParseError::Incomplete),
            Some(e) => match text_spec(b.subrange(pos + 1, e)) {
                Ok(t) => Ok((if b[pos] == 43 { Frame::Simple(t) } else { Frame::Integer(t) }, e + 2)),
                Err(x) => Err(x),
            },
        }
    } else if b[pos] == 36 {
        match line_end(b, pos + 1) {
            None => Err(ParseError::Incomplete),
            Some(e) => {
                let line = b.subrange(pos + 1, e);
                if line == null_length() {
                    Ok((Frame::Null, e + 2))
                } else {
                    match length_of(line) {
                        None => Err(ParseError::MalformedLength),
                        Some(n) => if e + 2 + n + 2 > b.len() {
                            Err(ParseError::Incomplete)
                        } else {
                            match text_spec(b.subrange(e + 2, e + 2 + n)) {
                                Ok(t) => Ok((Frame::Bulk(t), e + 2 + n + 2)),
                                Err(x) => Err(x),
                            }
                        },
                    }
                }
            },
        }
    } else if b[pos] == 42 {
        match line_end(b, pos + 1) {
            None => Err(ParseError::Incomplete),
            Some(e) => match length_of(b.subrange(pos + 1, e)) {
                None => Err(ParseError::MalformedLength),
                Some(n) => match parse_items(b, e + 2, n) {
                    Ok((items, end)) => Ok((Frame::Array(items), end)),
                    Err(x) => Err(x),
                },
            },
        }
    } else {
        Err(ParseError::UnrecognizedType)
    }
}

#[via_fn]
proof fn parse_at_decreases(b: Seq<u8>, pos: int) {
    lemma_line_end(b, pos + 1);
}


/// The `n` values that follow one another from `pos`, with the position
/// just after the last.
pub open spec fn parse_items(b: Seq<u8>, pos: int, n: nat) -> Result<(Seq<Frame>, int), ParseError>
    decreases b.len() - pos, 1int, n,
{
    if n == 0 {
        Ok((Seq::empty(), pos))
    } else {
        match parse_at(b, pos) {
            Err(x) => Err(x),
            Ok((f, next)) => if next <= pos || next > b.len() {
                Err(ParseError::Incomplete)
            } else {
                match parse_items(b, next, (n - 1) as nat) {
                    Ok((rest, end)) => Ok((seq![f] + rest, end)),
                    Err(x) => Err(x),
                }
            },
        }
    }
}

/// `done`, then what `rest` parsed.
pub open spec fn after_items(done: Seq<Frame>, rest: Result<(Seq<Frame>, int), ParseError>) -> Result<(Seq<Frame>, int), ParseError> {
    match rest {
        Ok((more, end)) => Ok((done + more, end)),
        Err(x) => Err(x),
    }
}

/// The value at the start of a buffer, and how many bytes it takes.
pub open spec fn parse_spec(b: Seq<u8>) -> Result<(Frame, int), ParseError> {
    parse_at(b, 0)
}

/// A decoded value matches the model's outcome.
pub open spec fn decoded_as(r: Result<(Value, usize), ParseError>, m: Result<(Frame, int), ParseError>) -> bool {
    match r {
        Ok((v, end)) => m == Ok::<(Frame, int), ParseError>((v@, end as int)),
        Err(e) => m == Err::<(Frame, int), ParseError>(e),
    }
}

/// A parsed value ends after its start, within the buffer.
pub proof fn lemma_parse_advances(b: Seq<u8>, pos: int)
    ensures
        parse_at(b, pos) matches Ok((f, end)) ==> pos < end <= b.len(),
    decreases b.len() - pos, 0int, 0nat,
{
    if 0 <= pos < b.len() && b[pos] == 42 {
        if let Some(e) = line_end(b, pos + 1) {
            lemma_line_end(b, pos + 1);
            if let Some(n) = length_of(b.subrange(pos + 1, e)) {
                lemma_items_advance(b, e + 2, n);
            }
        }
    } else if 0 <= pos < b.len() {
        if let Some(e) = line_end(b, pos + 1) {
            lemma_line_end(b, pos + 1);
        }
    }
}

/// Parsed items end at or after their start, within the buffer.
pub proof fn lemma_items_advance(b: Seq<u8>, pos: int, n: nat)
    requires
        pos <= b.len(),
    ensures
        parse_items(b, pos, n) matches Ok((fs, end)) ==> pos <= end <= b.len(),
    decreases b.len() - pos, 1int, n,
{
    if n > 0 {
        lemma_parse_advances(b, pos);
        if let Ok((f, next)) = parse_at(b, pos) {
            if pos < next <= b.len() {
                lemma_items_advance(b, next, (n - 1) as nat);
            }
        }
    }
}

/// A line terminator that is found lies within the buffer, after `from`,
/// and none lies between.
pub proof fn lemma_line_end(b: Seq<u8>, from: int)
    ensures
        line_end(b, from) matches Some(e) ==> from <= e && e + 2 <= b.len() && is_crlf(b, e)
            && forall|j: int| from <= j < e ==> !is_crlf(b, j),
        line_end(b, from) is None ==> forall|j: int| from <= j && 0 <= from ==> !is_crlf(b, j),
    decreases b.len() - from,
{
    if !(from < 0 || from + 1 >= b.len()) && !is_crlf(b, from) {
        lemma_line_end(b, from + 1);
    }
}

/// The digits of a prefix spell no more than the whole.
pub proof fn lemma_digits_prefix(s: Seq<u8>, k: int)
    requires
        0 <= k <= s.len(),
    ensures
        digits_value(s.subrange(0, k)) <= digits_value(s),
    decreases s.len(),
{
    if k < s.len() {
        let t = s.drop_last();
        assert(t.subrange(0, k) =~= s.subrange(0, k));
        lemma_digits_prefix(t, k);
        assert(s.subrange(0, s.len() as int) =~= s);
    } else {
        assert(s.subrange(0, k) =~= s);
    }
}

/// A text that a line-framed value carries and reads back: no line
/// terminator inside.
pub open spec fn line_safe(s: Seq<char>) -> bool {
    forall|i: int| 0 <= i < s.len() - 1 ==> !(#[trigger] s[i] == '\r' && s[i + 1] == '\n')
}

/// The values whose encoding decodes back to them: null, line-framed
/// values with line-safe text, and bulk strings of ASCII text.
pub open spec fn decodes_back(f: Frame) -> bool {
    match f {
        Frame::Null => true,
        Frame::Simple(s) => line_safe(s),
        Frame::Integer(s) => line_safe(s),
        Frame::Bulk(s) => is_ascii_chars(s) && s.len() <= LENGTH_MAX,
        _ => false,
    }
}

/// The line terminator is found where it first stands.
proof fn lemma_line_end_at(b: Seq<u8>, from: int, e: int)
    requires
        0 <= from <= e,
        is_crlf(b, e),
        forall|j: int| from <= j < e ==> !#[trigger] is_crlf(b, j),
    ensures
        line_end(b, from) == Some(e),
    decreases e - from,
{
    if from < e {
        assert(!is_crlf(b, from));
        lemma_line_end_at(b, from + 1, e);
    }
}

/// An ASCII text's bytes are its characters, one by one.
proof fn lemma_ascii_bytes(e: Seq<char>)
    requires
        is_ascii_chars(e),
    ensures
        encode_utf8(e).len() == e.len(),
        forall|i: int| 0 <= i < e.len() ==> #[trigger] encode_utf8(e)[i] == e[i] as u8,
{
    vstd::utf8::is_ascii_chars_encode_utf8(e);
}

/// A decimal digit character and its byte.
proof fn lemma_digit(d: int)
    requires
        0 <= d < 10,
    ensures
        digit_chars()[d] as u8 == 48 + d,
        '0' <= digit_chars()[d] <= '9',
{
    let ds = digit_chars();
    if d == 0 { assert(ds[0] == '0'); }
    else if d == 1 { assert(ds[1] == '1'); }
    else if d == 2 { assert(ds[2] == '2'); }
    else if d == 3 { assert(ds[3] == '3'); }
    else if d == 4 { assert(ds[4] == '4'); }
    else if d == 5 { assert(ds[5] == '5'); }
    else if d == 6 { assert(ds[6] == '6'); }
    else if d == 7 { assert(ds[7] == '7'); }
    else if d == 8 { assert(ds[8] == '8'); }
    else { assert(ds[9] == '9'); }
}

/// The bytes of a character sequence taken one character per byte.
pub open spec fn char_bytes(s: Seq<char>) -> Seq<u8> {
    s.map_values(|c: char| c as u8)
}

/// The decimal spelling of `n` is digits that spell `n`.
proof fn lemma_decimal(n: nat)
    ensures
        decimal(n).len() >= 1,
        forall|i: int| 0 <= i < decimal(n).len() ==> '0' <= #[trigger] decimal(n)[i] <= '9',
        is_digits(char_bytes(decimal(n))),
        digits_value(char_bytes(decimal(n))) == n,
    decreases n,
{
    let d = decimal(n);
    if n < 10 {
        lemma_digit(n as int);
        assert(char_bytes(d).drop_last() =~= Seq::<u8>::empty());
        assert(char_bytes(d).last() == digit_chars()[n as int] as u8);
        assert(digits_value(char_bytes(d)) == digits_value(Seq::<u8>::empty()) * 10 + (char_bytes(d).last() - 48) as nat);
    } else {
        let q = n / 10;
        let r = (n % 10) as int;
        lemma_decimal(q);
        lemma_digit(r);
        assert forall|i: int| 0 <= i < d.len() implies '0' <= #[trigger] d[i] <= '9' by {
            if i < decimal(q).len() {
                assert(d[i] == decimal(q)[i]);
            }
        }
        assert(char_bytes(d).drop_last() =~= char_bytes(decimal(q)));
        assert forall|i: int| 0 <= i < char_bytes(d).len() implies 48 <= #[trigger] char_bytes(d)[i] <= 57 by {
            if i < decimal(q).len() {
                assert(char_bytes(d)[i] == char_bytes(decimal(q))[i]);
            }
        }
        assert(char_bytes(d).last() == digit_chars()[r] as u8);
        assert(digits_value(char_bytes(d)) == digits_value(char_bytes(decimal(q))) * 10 + (char_bytes(d).last() - 48) as nat);
        assert(n == q * 10 + r);
    }
    assert forall|i: int| 0 <= i < char_bytes(d).len() implies 48 <= #[trigger] char_bytes(d)[i] <= 57 by {
        assert('0' <= d[i] <= '9');
    }
}

/// One character's bytes: the character itself when it is ASCII, else
/// bytes that are all at least 0x80.
proof fn lemma_scalar_bytes(c: char)
    ensures
        encode_scalar(c as u32).len() >= 1,
        (c as u32) < 0x80 ==> encode_scalar(c as u32) == seq![(c as u32) as u8],
        (c as u32) >= 0x80 ==> forall|i: int| 0 <= i < encode_scalar(c as u32).len() ==> #[trigger] encode_scalar(c as u32)[i] >= 0x80,
{
    let v = c as u32;
    if v < 0x80 {
        assert((v & 0x7F) as u8 == v as u8) by (bit_vector)
            requires v < 0x80;
        assert(encode_scalar(v) =~= seq![v as u8]);
    } else {
        assert(0xC0u8 | (((v >> 6) & 0x1F) as u8) >= 0x80) by (bit_vector);
        assert(0xE0u8 | (((v >> 12) & 0x0F) as u8) >= 0x80) by (bit_vector);
        assert(0xF0u8 | (((v >> 18) & 0x7) as u8) >= 0x80) by (bit_vector);
        assert(0x80u8 | ((v & 0x3F) as u8) >= 0x80) by (bit_vector);
        assert(0x80u8 | (((v >> 6) & 0x3F) as u8) >= 0x80) by (bit_vector);
        assert(0x80u8 | (((v >> 12) & 0x3F) as u8) >= 0x80) by (bit_vector);
    }
}

/// The bytes of two texts side by side are the two texts' bytes.
proof fn lemma_encode_concat(a: Seq<char>, b: Seq<char>)
    ensures
        encode_utf8(a + b) == encode_utf8(a) + encode_utf8(b),
    decreases a.len(),
{
    if a.len() == 0 {
        assert(a + b =~= b);
        assert(encode_utf8(a) + encode_utf8(b) =~= encode_utf8(b));
    } else {
        lemma_encode_concat(a.drop_first(), b);
        assert((a + b).drop_first() =~= a.drop_first() + b);
        assert((a + b)[0] == a[0]);
        let h = encode_scalar(a[0] as u32);
        assert(h + (encode_utf8(a.drop_first()) + encode_utf8(b)) =~= (h + encode_utf8(a.drop_first())) + encode_utf8(b));
    }
}

/// A text's bytes followed by a line terminator.
pub open spec fn terminated(s: Seq<char>) -> Seq<u8> {
    encode_utf8(s) + seq![13u8, 10u8]
}

/// In a text's bytes followed by a line terminator, no terminator starts
/// before the final one, when the text holds none.
proof fn lemma_no_terminator_inside(s: Seq<char>)
    requires
        line_safe(s),
    ensures
        forall|j: int| 0 <= j < encode_utf8(s).len() ==> !#[trigger] is_crlf(terminated(s), j),
    decreases s.len(),
{
    if s.len() > 0 {
        let c = s[0];
        let rest = s.drop_first();
        assert forall|i: int| 0 <= i < rest.len() - 1 implies !(#[trigger] rest[i] == '\r' && rest[i + 1] == '\n') by {
            assert(rest[i] == s[i + 1] && rest[i + 1] == s[i + 2]);
        }
        lemma_no_terminator_inside(rest);
        lemma_scalar_bytes(c);
        let h = encode_scalar(c as u32);
        let tr = terminated(rest);
        let t = terminated(s);
        assert(t =~= h + tr);
        if rest.len() > 0 {
            lemma_scalar_bytes(rest[0]);
            assert(tr[0] == encode_scalar(rest[0] as u32)[0]);
        } else {
            assert(tr[0] == 13);
        }
        assert forall|j: int| 0 <= j < encode_utf8(s).len() implies !#[trigger] is_crlf(t, j) by {
            if j < h.len() {
                if (c as u32) < 0x80 {
                    assert(j == 0);
                    if t[0] == 13 && t[1] == 10 {
                        let v = c as u32;
                        assert(v as u8 == 13);
                        assert(v == 13) by (bit_vector)
                            requires v < 0x80, v as u8 == 13;
                        vstd::utf8::char_u32_cast(c, 13);
                        vstd::utf8::char_u32_cast('\r', 13);
                        assert(c == '\r');
                        assert(rest.len() > 0);
                        assert(tr[0] == 10);
                        assert((rest[0] as u32) < 0x80);
                        let w = rest[0] as u32;
                        assert(w as u8 == 10);
                        assert(w == 10) by (bit_vector)
                            requires w < 0x80, w as u8 == 10;
                        vstd::utf8::char_u32_cast(rest[0], 10);
                        vstd::utf8::char_u32_cast('\n', 10);
                        assert(rest[0] == '\n');
                        assert(s[1] == rest[0]);
                    }
                } else {
                    assert(t[j] == h[j]);
                }
            } else {
                assert(t[j] == tr[j - h.len()]);
                assert(t[j + 1] == tr[j - h.len() + 1]);
                assert(!is_crlf(tr, j - h.len()));
            }
        }
    }
}

/// A line-framed value decodes back from its encoding.
proof fn lemma_line_frame(tag: char, s: Seq<char>)
    requires
        tag == '+' || tag == ':',
        line_safe(s),
    ensures
        ({
            let b = encode_utf8(seq![tag] + s + crlf());
            let n = encode_utf8(s).len() as int;
            &&& b.len() == n + 3
            &&& line_end(b, 1) == Some(n + 1)
            &&& b[0] == tag as u8
            &&& text_spec(b.subrange(1, n + 1)) == Ok::<Seq<char>, ParseError>(s)
        }),
{
    broadcast use vstd::utf8::encode_utf8_valid_utf8, vstd::utf8::encode_utf8_decode_utf8;

    let es = encode_utf8(s);
    let n = es.len() as int;
    lemma_encode_concat(seq![tag] + s, crlf());
    lemma_encode_concat(seq![tag], s);
    assert forall|i: int| 0 <= i < 1 implies '\0' <= #[trigger] seq![tag][i] <= '\u{7f}' by {}
    assert forall|i: int| 0 <= i < 2 implies '\0' <= #[trigger] crlf()[i] <= '\u{7f}' by {}
    lemma_ascii_bytes(seq![tag]);
    lemma_ascii_bytes(crlf());
    let b = encode_utf8(seq![tag] + s + crlf());
    let t = terminated(s);
    assert(encode_utf8(crlf()) =~= seq![13u8, 10u8]);
    assert(encode_utf8(seq![tag]) =~= seq![tag as u8]);
    assert(b =~= seq![tag as u8] + t);
    lemma_no_terminator_inside(s);
    assert forall|j: int| 1 <= j < n + 1 implies !#[trigger] is_crlf(b, j) by {
        assert(b[j] == t[j - 1] && b[j + 1] == t[j]);
        assert(!is_crlf(t, j - 1));
    }
    assert(b[n + 1] == 13 && b[n + 2] == 10);
    lemma_line_end_at(b, 1, n + 1);
    assert(b.subrange(1, n + 1) =~= es);
}

/// Decoding the encoding of a value gives the value back, with the whole
/// encoding consumed.
pub proof fn lemma_decode_encode(v: Value)
    requires
        decodes_back(v@),
    ensures
        parse_spec(encode_utf8(encoding(v@))) == Ok::<(Frame, int), ParseError>((v@, encode_utf8(encoding(v@)).len() as int)),
{
    broadcast use vstd::utf8::encode_utf8_valid_utf8, vstd::utf8::encode_utf8_decode_utf8;

    let f = v@;
    let e = encoding(f);
    match f {
        Frame::Null => {
            assert forall|i: int| 0 <= i < e.len() implies '\0' <= #[trigger] e[i] <= '\u{7f}' by {}
            lemma_ascii_bytes(e);
            let b = encode_utf8(e);
            assert(b[1] == 45 && b[2] == 49 && b[3] == 13 && b[4] == 10);
            lemma_line_end_at(b, 1, 3);
            assert(b.subrange(1, 3) =~= null_length());
        },
        Frame::Simple(s) => {
            lemma_line_frame('+', s);
        },
        Frame::Integer(s) => {
            lemma_line_frame(':', s);
        },
        Frame::Bulk(s) => {
            let n = s.len() as int;
            let d = decimal(s.len());
            let m = d.len() as int;
            lemma_decimal(s.len());
            assert(e == seq!['$'] + d + crlf() + s + crlf());
            assert forall|i: int| 0 <= i < e.len() implies '\0' <= #[trigger] e[i] <= '\u{7f}' by {
                if 1 <= i < m + 1 {
                    assert(e[i] == d[i - 1]);
                } else if m + 3 <= i < m + 3 + n {
                    assert(e[i] == s[i - m - 3]);
                }
            }
            lemma_ascii_bytes(e);
            lemma_ascii_bytes(s);
            let b = encode_utf8(e);
            assert(b.len() == m + n + 5);
            assert(b[m + 1] == 13 && b[m + 2] == 10);
            assert forall|j: int| 1 <= j < m + 1 implies !#[trigger] is_crlf(b, j) by {
                assert(b[j] == d[j - 1] as u8);
                assert('0' <= d[j - 1] <= '9');
            }
            lemma_line_end_at(b, 1, m + 1);
            let line = b.subrange(1, m + 1);
            assert(line =~= char_bytes(d)) by {
                assert forall|i: int| 0 <= i < m implies line[i] == #[trigger] char_bytes(d)[i] by {
                    assert(b[i + 1] == e[i + 1] as u8);
                    assert(e[i + 1] == d[i]);
                }
            }
            assert(line[0] != 45);
            assert(line != null_length());
            assert(b.subrange(m + 3, m + 3 + n) =~= encode_utf8(s)) by {
                assert forall|i: int| 0 <= i < n implies b.subrange(m + 3, m + 3 + n)[i] == #[trigger] encode_utf8(s)[i] by {
                    assert(e[m + 3 + i] == s[i]);
                }
            }
        },
        _ => {},
    }
}

/// A unit struct that groups the decoding functions.
#[derive(Clone, Copy, Debug, PartialEq, Eq)]
pub struct Parser;

impl Parser {
    /// Decodes the value at the start of the buffer, with the number of bytes
    /// it takes.
    pub fn parse_message(buffer: &BytesMut) -> (r: Result<(Value, usize), ParseError>)
        ensures
            decoded_as(r, parse_spec(buffer_bytes(*buffer))),
    {
        Parser::parse(contents(buffer))
    }

    /// Decodes the value at the start of the bytes, with the number of bytes
    /// it takes.
    pub fn parse(buffer: &[u8]) -> (r: Result<(Value, usize), ParseError>)
        ensures
            decoded_as(r, parse_spec(buffer@)),
    {
        Parser::decode_at(buffer, 0)
    }

    fn decode_at(b: &[u8], pos: usize) -> (r: Result<(Value, usize), ParseError>)
        requires
            pos <= b@.len(),
        ensures
            decoded_as(r, parse_at(b@, pos as int)),
        decreases b@.len() - pos, 1int,
    {
        if pos >= b.len() {
            return Err(ParseError::Incomplete);
        }
        let tag = b[pos];
        if tag == 43 {
            Parser::decode_simple_string(b, pos)
        } else if tag == 58 {
            Parser::decode_integer(b, pos)
        } else if tag == 42 {
            Parser::decode_array(b, pos)
        } else if tag == 36 {
            Parser::decode_bulk_string(b, pos)
        } else {
            Err(ParseError::UnrecognizedType)
        }
    }

    /// The text of the line that starts after the tag at `pos`, and where
    /// the next value starts.
    fn decode_line(b: &[u8], pos: usize) -> (r: Result<(String, usize), ParseError>)
        requires
            pos < b@.len(),
        ensures
            match r {
                Ok((s, end)) => exists|e: int| line_end(b@, pos + 1) == Some(e)
                    && text_spec(b@.subrange(pos + 1, e)) == Ok::<Seq<char>, ParseError>(s@) && end == e + 2,
                Err(x) => match line_end(b@, pos + 1) {
                    None => x == ParseError::Incomplete,
                    Some(e) => text_spec(b@.subrange(pos + 1, e)) == Err::<Seq<char>, ParseError>(x),
                },
            },
    {
        let len = b.len();
        match Parser::read_until_crlf(b, pos + 1) {
            None => Err(ParseError::Incomplete),
            Some(e) => {
                proof {
                    lemma_line_end(b@, pos + 1);
                }
                match Parser::parse_string(b, pos + 1, e) {
                    Some(s) => Ok((s, e + 2)),
                    None => Err(ParseError::InvalidText),
                }
            },
        }
    }

    fn decode_simple_string(b: &[u8], pos: usize) -> (r: Result<(Value, usize), ParseError>)
        requires
            pos < b@.len(),
            b@[pos as int] == 43,
        ensures
            decoded_as(r, parse_at(b@, pos as int)),
    {
        match Parser::decode_line(b, pos) {
            Ok((s, end)) => Ok((Value::SimpleString(s), end)),
            Err(x) => Err(x),
        }
    }

    fn decode_integer(b: &[u8], pos: usize) -> (r: Result<(Value, usize), ParseError>)
        requires
            pos < b@.len(),
            b@[pos as int] == 58,
        ensures
            decoded_as(r, parse_at(b@, pos as int)),
    {
        match Parser::decode_line(b, pos) {
            Ok((s, end)) => Ok((Value::Integer(s), end)),
            Err(x) => Err(x),
        }
    }

    fn decode_bulk_string(b: &[u8], pos: usize) -> (r: Result<(Value, usize), ParseError>)
        requires
            pos < b@.len(),
            b@[pos as int] == 36,
        ensures
            decoded_as(r, parse_at(b@, pos as int)),
    {
        let len = b.len();
        let e = match Parser::read_until_crlf(b, pos + 1) {
            None => {
                return Err(ParseError::Incomplete);
            },
            Some(e) => e,
        };
        proof {
            lemma_line_end(b@, pos + 1);
        }
        let ghost line = b@.subrange(pos + 1, e as int);
        if e == pos + 3 && b[pos + 1] == 45 && b[pos + 2] == 49 {
            proof {
                assert(line =~= null_length());
            }
            return Ok((Value::Null, e + 2));
        }
        proof {
            if line == null_length() {
                assert(line[0] == b@[pos + 1]);
            }
        }
        let n = match Parser::parse_integer(b, pos + 1, e) {
            None => {
                return Err(ParseError::MalformedLength);
            },
            Some(n) => n,
        };
        let start = e + 2;
        let avail = b.len() - start;
        if n > avail as u64 || avail - (n as usize) < 2 {
            return Err(ParseError::Incomplete);
        }
        let stop = start + n as usize;
        match Parser::parse_string(b, start, stop) {
            Some(s) => Ok((Value::BulkString(s), stop + 2)),
            None => Err(ParseError::InvalidText),
        }
    }

    fn decode_array(b: &[u8], pos: usize) -> (r: Result<(Value, usize), ParseError>)
        requires
            pos < b@.len(),
            b@[pos as int] == 42,
        ensures
            decoded_as(r, parse_at(b@, pos as int)),
        decreases b@.len() - pos, 0int,
    {
        let len = b.len();
        let e = match Parser::read_until_crlf(b, pos + 1) {
            None => {
                return Err(ParseError::Incomplete);
            },
            Some(e) => e,
        };
        proof {
            lemma_line_end(b@, pos + 1);
        }
        let n = match Parser::parse_integer(b, pos + 1, e) {
            None => {
                return Err(ParseError::MalformedLength);
            },
            Some(n) => n,
        };
        let ghost first = (e + 2) as int;
        let mut items: Vec<Value> = Vec::new();
        let mut cur: usize = e + 2;
        let mut k: u64 = 0;
        proof {
            lemma_frames(items@);
            assert(frames(items@) + Seq::<Frame>::empty() =~= frames(items@));
        }
        while k < n
            invariant
                pos < first <= cur <= b@.len(),
                first == e + 2,
                k <= n,
                parse_at(b@, pos as int) == (match parse_items(b@, first, n as nat) {
                    Ok((fs, end)) => Ok::<(Frame, int), ParseError>((Frame::Array(fs), end)),
                    Err(x) => Err::<(Frame, int), ParseError>(x),
                }),
                parse_items(b@, first, n as nat) == after_items(frames(items@), parse_items(b@, cur as int, (n - k) as nat)),
            decreases n - k,
        {
            proof {
                lemma_parse_advances(b@, cur as int);
            }
            match Parser::decode_at(b, cur) {
                Err(x) => {
                    proof {
                        assert(parse_items(b@, cur as int, (n - k) as nat) == Err::<(Seq<Frame>, int), ParseError>(x));
                    }
                    return Err(x);
                },
                Ok((v, next)) => {
                    proof {
                        let ghost old_frames = frames(items@);
                        lemma_frames(items@);
                        lemma_frames(items@.push(v));
                        assert(frames(items@.push(v)) =~= old_frames + seq![v@]);
                        let rest = parse_items(b@, next as int, (n - k - 1) as nat);
                        match rest {
                            Ok((more, end)) => {
                                assert(old_frames + (seq![v@] + more) =~= (old_frames + seq![v@]) + more);
                            },
                            Err(_) => {},
                        }
                    }
                    items.push(v);
                    cur = next;
                    k = k + 1;
                },
            }
        }
        proof {
            lemma_frames(items@);
            assert(frames(items@) + Seq::<Frame>::empty() =~= frames(items@));
        }
        Ok((Value::Array(items), cur))
    }

    /// Where the first line terminator at or after `from` starts.
    fn read_until_crlf(b: &[u8], from: usize) -> (r: Option<usize>)
        requires
            from <= b@.len(),
        ensures
            r matches Some(e) ==> line_end(b@, from as int) == Some(e as int),
            r is None ==> line_end(b@, from as int) is None,
    {
        let len = b.len();
        if len == 0 {
            return None;
        }
        let mut i: usize = from;
        while i < len - 1
            invariant
                len == b@.len(),
                len >= 1,
                from <= i <= b@.len(),
                line_end(b@, from as int) == line_end(b@, i as int),
            decreases b@.len() - i,
        {
            if b[i] == 13 && b[i + 1] == 10 {
                return Some(i);
            }
            i = i + 1;
        }
        None
    }

    /// The text of `b[start..end]`, if it is valid UTF-8.
    fn parse_string(b: &[u8], start: usize, end: usize) -> (r: Option<String>)
        requires
            start <= end <= b@.len(),
        ensures
            match r {
                Some(s) => text_spec(b@.subrange(start as int, end as int)) == Ok::<Seq<char>, ParseError>(s@),
                None => text_spec(b@.subrange(start as int, end as int)) == Err::<Seq<char>, ParseError>(ParseError::InvalidText),
            },
    {
        text_of(slice_to_vec(slice_subrange(b, start, end)))
    }

    /// The length that `b[start..end]` declares, if it is one.
    fn parse_integer(b: &[u8], start: usize, end: usize) -> (r: Option<u64>)
        requires
            start <= end <= b@.len(),
        ensures
            match r {
                Some(n) => length_of(b@.subrange(start as int, end as int)) == Some(n as nat),
                None => length_of(b@.subrange(start as int, end as int)) is None,
            },
    {
        parse_decimal(b, start, end, LENGTH_MAX)
    }
}

/// The number that the digits `b[start..end]` spell, if it is at most `max`.
pub fn parse_decimal(b: &[u8], start: usize, end: usize, max: u64) -> (r: Option<u64>)
    requires
        start <= end <= b@.len(),
    ensures
        match r {
            Some(n) => number_within(b@.subrange(start as int, end as int), max) == Some(n as nat),
            None => number_within(b@.subrange(start as int, end as int), max) is None,
        },
{
    let ghost line = b@.subrange(start as int, end as int);
    if start == end {
        return None;
    }
    let mut acc: u64 = 0;
    let mut i: usize = start;
    while i < end
        invariant
            start <= i <= end <= b@.len(),
            line == b@.subrange(start as int, end as int),
            acc == digits_value(line.subrange(0, i - start)),
            acc <= max,
            forall|j: int| 0 <= j < i - start ==> 48 <= #[trigger] line[j] <= 57,
        decreases end - i,
    {
        let c = b[i];
        if c < 48 || c > 57 {
            proof {
                assert(line[i - start] == c);
            }
            return None;
        }
        let d = (c - 48) as u64;
        proof {
            let p = line.subrange(0, i - start + 1);
            assert(p.drop_last() =~= line.subrange(0, i - start));
            assert(digits_value(p) == acc * 10 + d);
        }
        if d > max || acc > (max - d) / 10 {
            proof {
                assert(acc * 10 + d > max) by (nonlinear_arith)
                    requires d > max || acc > (max - d) / 10, d <= 9, acc >= 0;
                lemma_digits_prefix(line, i - start + 1);
            }
            return None;
        }
        proof {
            assert(acc * 10 + d <= max) by (nonlinear_arith)
                requires acc <= (max - d) / 10, d <= max, d <= 9;
        }
        acc = acc * 10 + d;
        i = i + 1;
    }
    proof {
        assert(line.subrange(0, i - start) =~= line);
    }
    Some(acc)
}

} // verus!
