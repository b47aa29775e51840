//! Parsing SMTP server replies.
//!
//! A reply is one or more lines `ddd-text` (continuation) ending with a line
//! `ddd text` or `ddd` (final). The reading of the bytes follows `str::lines`:
//! lines end at `\n`, and a `\r` right before that `\n` is not part of the line.

use vstd::prelude::*;
use vstd::utf8::*;
use vstd::string::StringExecFns;
use crate::text::{decimal, digit_char, push_char, push_decimal};

verus! {

broadcast use vstd::utf8::group_utf8_lib;

/// A parsed SMTP server response.
#[derive(Debug, Clone)]
pub struct SmtpResponse {
    /// 3-digit SMTP status code.
    pub code: u16,
    /// Response text (may be multiline, joined with newlines).
    pub message: String,
}

/// An ASCII decimal digit.
pub open spec fn is_digit(b: u8) -> bool {
    48 <= b <= 57
}

pub open spec fn digit_value(b: u8) -> int {
    b - 48
}

/// The three-digit status code in a three-byte code field; anything but
/// three ASCII digits is refused.
pub open spec fn code_value(b0: u8, b1: u8, b2: u8) -> Option<u16> {
    if is_digit(b0) && is_digit(b1) && is_digit(b2) {
        Some((100 * digit_value(b0) + 10 * digit_value(b1) + digit_value(b2)) as u16)
    } else {
        None
    }
}

/// Index of the first `\n` at or after `pos`, or `data.len()` when there is none.
pub open spec fn newline_from(data: Seq<u8>, pos: int) -> int
    decreases data.len() - pos,
{
    if pos >= data.len() {
        data.len() as int
    } else if data[pos] == 10 {
        pos
    } else {
        newline_from(data, pos + 1)
    }
}

/// End of the line that starts at `pos`: before its `\n`, and before a `\r`
/// that directly precedes that `\n`.
pub open spec fn line_end(data: Seq<u8>, pos: int) -> int {
    let e = newline_from(data, pos);
    if e < data.len() && e > pos && data[e - 1] == 13 {
        e - 1
    } else {
        e
    }
}

/// Start of the line after the one that starts at `pos`.
pub open spec fn next_line(data: Seq<u8>, pos: int) -> int {
    let e = newline_from(data, pos);
    if e < data.len() {
        e + 1
    } else {
        data.len() as int
    }
}

pub proof fn lemma_newline_from_bounds(data: Seq<u8>, pos: int)
    requires
        0 <= pos <= data.len(),
    ensures
        pos <= newline_from(data, pos) <= data.len(),
        newline_from(data, pos) < data.len() ==> data[newline_from(data, pos)] == 10,
        forall|i: int| pos <= i < newline_from(data, pos) ==> data[i] != 10,
    decreases data.len() - pos,
{
    if pos < data.len() && data[pos] != 10 {
        lemma_newline_from_bounds(data, pos + 1);
    }
}

proof fn lemma_newline_from_is(data: Seq<u8>, pos: int, e: int)
    requires
        0 <= pos <= e <= data.len(),
        forall|i: int| pos <= i < e ==> data[i] != 10,
        e == data.len() || data[e] == 10,
    ensures
        newline_from(data, pos) == e,
    decreases e - pos,
{
    if pos < e {
        lemma_newline_from_is(data, pos + 1, e);
    }
}

/// How far reading a buffer gets.
pub enum ReplyScan {
    /// A final line was seen: the code and the text of each line, in order.
    Complete(u16, Seq<Seq<u8>>),
    /// No reply can be read from these bytes (yet): no final line, or a line
    /// whose code does not read, or a code that differs from the first line's.
    Pending,
    /// A line whose text cannot be cut out at its byte 3 or 4, because a
    /// multi-byte character spans that position.
    Unsliceable,
}

/// Reading goes line by line from `pos`, with the code of the lines read so
/// far and their texts.
pub open spec fn scan_lines(data: Seq<u8>, pos: int, code: Option<u16>, texts: Seq<Seq<u8>>) -> ReplyScan
    decreases data.len() - pos,
{
    if pos < 0 || pos >= data.len() {
        ReplyScan::Pending
    } else {
        let end = line_end(data, pos);
        let next = next_line(data, pos);
        proof {
            lemma_newline_from_bounds(data, pos);
        }
        if end - pos < 3 {
            scan_lines(data, next, code, texts)
        } else if end - pos > 3 && is_continuation_byte(data[pos + 3]) {
            ReplyScan::Unsliceable
        } else {
            match code_value(data[pos], data[pos + 1], data[pos + 2]) {
                None => ReplyScan::Pending,
                Some(c) => {
                    if code is Some && code != Some(c) {
                        ReplyScan::Pending
                    } else if end - pos >= 4 {
                        if end - pos > 4 && is_continuation_byte(data[pos + 4]) {
                            ReplyScan::Unsliceable
                        } else if data[pos + 3] == 32 {
                            ReplyScan::Complete(c, texts.push(data.subrange(pos + 4, end)))
                        } else {
                            scan_lines(data, next, Some(c), texts.push(data.subrange(pos + 4, end)))
                        }
                    } else {
                        ReplyScan::Complete(c, texts)
                    }
                },
            }
        }
    }
}

/// The line texts joined with `\n`.
pub open spec fn join_lines(texts: Seq<Seq<u8>>) -> Seq<u8>
    decreases texts.len(),
{
    if texts.len() == 0 {
        seq![]
    } else if texts.len() == 1 {
        texts[0]
    } else {
        join_lines(texts.drop_last()) + seq![10u8] + texts.last()
    }
}

/// How far the whole buffer reads, from its first byte.
pub open spec fn reply_scan(data: Seq<u8>) -> ReplyScan {
    scan_lines(data, 0, None, seq![])
}

/// The reply that a buffer holds: its code and text, where the buffer is
/// valid UTF-8 and holds a final line.
pub open spec fn reply_of(data: Seq<u8>) -> Option<(u16, Seq<char>)> {
    if !valid_utf8(data) {
        None
    } else {
        match reply_scan(data) {
            ReplyScan::Complete(c, texts) => Some((c, decode_utf8(join_lines(texts)))),
            _ => None,
        }
    }
}

/// The buffers on which slicing a line's text would fail.
pub open spec fn unsliceable(data: Seq<u8>) -> bool {
    valid_utf8(data) && reply_scan(data) is Unsliceable
}

/// The outcome of reading a reply out of a buffer.
#[derive(Debug)]
pub enum ReplyStatus {
    /// A complete reply.
    Complete(SmtpResponse),
    /// No complete reply in the buffer.
    Pending,
    /// A line's text starts inside a multi-byte character.
    Unsliceable,
}

/// Calls `std::str::from_utf8`. The contract claims that it succeeds exactly
/// on valid UTF-8 and that the string then holds the same bytes.
#[verifier::external_body]
pub(crate) fn utf8_str(bytes: &[u8]) -> (r: Option<&str>)
    ensures
        r is Some <==> valid_utf8(bytes@),
        r matches Some(s) ==> encode_utf8(s@) == bytes@,
{
    std::str::from_utf8(bytes).ok()
}

fn is_continuation(b: u8) -> (r: bool)
    ensures
        r == is_continuation_byte(b),
{
    0x80 <= b && b <= 0xbf
}

fn read_code(b0: u8, b1: u8, b2: u8) -> (r: Option<u16>)
    ensures
        r == code_value(b0, b1, b2),
{
    let d1 = 48u8 <= b1 && b1 <= 57u8;
    let d2 = 48u8 <= b2 && b2 <= 57u8;
    if 48u8 <= b0 && b0 <= 57u8 && d1 && d2 {
        Some(100 * (b0 - 48u8) as u16 + 10 * (b1 - 48u8) as u16 + (b2 - 48u8) as u16)
    } else {
        None
    }
}

proof fn lemma_valid_newline()
    ensures
        valid_utf8(seq![10u8]),
{
    reveal_with_fuel(valid_utf8, 2);
    assert(pop_first_scalar(seq![10u8]) =~= Seq::<u8>::empty());
}

/// A piece of valid UTF-8 between two character boundaries is valid UTF-8.
proof fn lemma_valid_piece(data: Seq<u8>, a: int, b: int)
    requires
        valid_utf8(data),
        0 <= a <= b <= data.len(),
        a == b || !is_continuation_byte(data[a]),
        b == data.len() || !is_continuation_byte(data[b]),
    ensures
        valid_utf8(data.subrange(a, b)),
{
    if b < data.len() {
        is_char_boundary_iff_not_is_continuation_byte(data, b);
    }
    valid_utf8_split(data, b);
    let prefix = data.subrange(0, b);
    if a < b {
        is_char_boundary_iff_not_is_continuation_byte(prefix, a);
    }
    valid_utf8_split(prefix, a);
    assert(prefix.subrange(a, b) =~= data.subrange(a, b));
}

impl SmtpResponse {
    fn from_text(code: u16, joined: &Vec<u8>) -> (r: SmtpResponse)
        requires
            valid_utf8(joined@),
        ensures
            r.code == code,
            r.message@ == decode_utf8(joined@),
    {
        let text = utf8_str(joined.as_slice());
        let s = text.unwrap();
        proof {
            encode_utf8_decode_utf8(s@);
        }
        SmtpResponse { code, message: s.to_owned() }
    }

    /// Read a reply out of raw bytes, telling apart a buffer that holds no
    /// complete reply from one whose line text cannot be cut out.
    pub fn scan(data: &[u8]) -> (r: ReplyStatus)
        ensures
            match r {
                ReplyStatus::Complete(resp) => reply_of(data@) == Some((resp.code, resp.message@)),
                ReplyStatus::Pending => reply_of(data@) is None && !unsliceable(data@),
                ReplyStatus::Unsliceable => unsliceable(data@),
            },
    {
        if utf8_str(data).is_none() {
            return ReplyStatus::Pending;
        }
        let n = data.len();
        let mut pos: usize = 0;
        let mut code: Option<u16> = None;
        let mut joined: Vec<u8> = Vec::new();
        let mut count: usize = 0;
        let ghost mut texts: Seq<Seq<u8>> = seq![];
        proof {
            lemma_valid_newline();
        }
        loop
            invariant
                n == data@.len(),
                valid_utf8(data@),
                valid_utf8(seq![10u8]),
                pos <= n,
                scan_lines(data@, pos as int, code, texts) == reply_scan(data@),
                joined@ == join_lines(texts),
                valid_utf8(joined@),
                count == texts.len(),
                count <= pos,
                joined@.len() <= pos,
            decreases n - pos,
        {
            if pos >= n {
                return ReplyStatus::Pending;
            }
            let mut e = pos;
            while e < n && data[e] != 10u8
                invariant
                    n == data@.len(),
                    pos <= e <= n,
                    forall|i: int| pos <= i < e ==> data@[i] != 10,
                decreases n - e,
            {
                e = e + 1;
            }
            proof {
                lemma_newline_from_is(data@, pos as int, e as int);
            }
            let end = if e < n && e > pos && data[e - 1] == 13u8 {
                e - 1
            } else {
                e
            };
            let next = if e < n {
                e + 1
            } else {
                n
            };
            if end - pos < 3 {
                pos = next;
                continue;
            }
            if end - pos > 3 && is_continuation(data[pos + 3]) {
                return ReplyStatus::Unsliceable;
            }
            let c = match read_code(data[pos], data[pos + 1], data[pos + 2]) {
                None => {
                    return ReplyStatus::Pending;
                },
                Some(c) => c,
            };
            match code {
                Some(prev) => {
                    if prev != c {
                        return ReplyStatus::Pending;
                    }
                },
                None => {},
            }
            if end - pos < 4 {
                return ReplyStatus::Complete(SmtpResponse::from_text(c, &joined));
            }
            if end - pos > 4 && is_continuation(data[pos + 4]) {
                return ReplyStatus::Unsliceable;
            }
            let ghost piece = data@.subrange(pos + 4, end as int);
            proof {
                lemma_valid_piece(data@, pos + 4, end as int);
            }
            let ghost before = joined@;
            if count > 0 {
                joined.push(10u8);
            }
            let ghost with_sep = joined@;
            let mut k = pos + 4;
            while k < end
                invariant
                    n == data@.len(),
                    pos + 4 <= k <= end <= n,
                    joined@ == with_sep + data@.subrange(pos + 4, k as int),
                decreases end - k,
            {
                joined.push(data[k]);
                proof {
                    assert(data@.subrange(pos + 4, k + 1) =~= data@.subrange(pos + 4, k as int).push(data@[k as int]));
                }
                k = k + 1;
            }
            proof {
                let t2 = texts.push(piece);
                assert(t2.drop_last() =~= texts);
                if count > 0 {
                    valid_utf8_concat(before, seq![10u8]);
                    valid_utf8_concat(before + seq![10u8], piece);
                    assert(joined@ =~= join_lines(texts) + seq![10u8] + piece);
                } else {
                    assert(joined@ =~= piece);
                }
                texts = t2;
            }
            count = count + 1;
            if data[pos + 3] == 32u8 {
                return ReplyStatus::Complete(SmtpResponse::from_text(c, &joined));
            }
            code = Some(c);
            pos = next;
        }
    }
    /// Parse an SMTP response from raw bytes.
    ///
    /// SMTP responses have the format:
    /// - `250-First line\r\n` (continuation)
    /// - `250 Last line\r\n` (final)
    ///
    /// Returns the parsed response once a final line is seen, and `None`
    /// for bytes that hold no complete reply, are not UTF-8, or hold a line
    /// whose text would start inside a multi-byte character.
    pub fn parse(data: &[u8]) -> (r: Option<Self>)
        ensures
            match r {
                Some(resp) => reply_of(data@) == Some((resp.code, resp.message@)),
                None => reply_of(data@) is None,
            },
    {
        match SmtpResponse::scan(data) {
            ReplyStatus::Complete(resp) => Some(resp),
            _ => None,
        }
    }

    /// Check if this response indicates success (2xx).
    pub fn is_success(&self) -> (r: bool)
        ensures
            r == (200 <= self.code < 300),
    {
        self.code >= 200 && self.code < 300
    }

    /// Check if this response is a positive intermediate reply (3xx).
    pub fn is_intermediate(&self) -> (r: bool)
        ensures
            r == (300 <= self.code < 400),
    {
        self.code >= 300 && self.code < 400
    }

    /// The response as text: the code, a space, and the message.
    pub fn to_string(&self) -> (r: String)
        ensures
            r@ == decimal(self.code as nat) + seq![' '] + self.message@,
    {
        let mut s = String::new();
        push_decimal(&mut s, self.code as u64);
        push_char(&mut s, ' ');
        s.append(self.message.as_str());
        s
    }
}

/// UTF-8 encoding distributes over concatenation.
pub proof fn lemma_encode_concat(a: Seq<char>, b: Seq<char>)
    ensures
        encode_utf8(a + b) == encode_utf8(a) + encode_utf8(b),
    decreases a.len(),
{
    if a.len() > 0 {
        lemma_encode_concat(a.drop_first(), b);
        assert((a + b).drop_first() =~= a.drop_first() + b);
        assert((a + b)[0] == a[0]);
        assert(encode_utf8(a + b) =~= encode_utf8(a) + encode_utf8(b));
    } else {
        assert(a + b =~= b);
        assert(encode_utf8(a) =~= Seq::<u8>::empty());
        assert(encode_utf8(a) + encode_utf8(b) =~= encode_utf8(b));
    }
}

/// The encoding of a character other than `\n` holds no byte 10, and it
/// starts with a byte that is not a continuation byte.
proof fn lemma_encode_scalar_bytes(c: char)
    ensures
        c != '\n' ==> forall|j: int| 0 <= j < encode_scalar(c as u32).len() ==> #[trigger] encode_scalar(c as u32)[j] != 10,
        encode_scalar(c as u32).len() > 0,
        !is_continuation_byte(encode_scalar(c as u32)[0]),
{
    let v = c as u32;
    char_is_scalar(c);
    let b0 = leading_byte_width_1(v);
    let b1 = leading_byte_width_2(v);
    let b2 = leading_byte_width_3(v);
    let b3 = leading_byte_width_4(v);
    let k1 = last_continuation_byte(v);
    let k2 = second_last_continuation_byte(v);
    let k3 = third_last_continuation_byte(v);
    assert(v <= 0x7f ==> b0 == v) by (bit_vector)
        requires
            b0 == (v & 0x7F) as u8,
    ;
    assert(b1 >= 0xc0 && b1 <= 0xdf) by (bit_vector)
        requires
            b1 == 0xC0 | ((v >> 6) & 0x1F) as u8,
    ;
    assert(b2 >= 0xe0 && b2 <= 0xef) by (bit_vector)
        requires
            b2 == 0xE0 | ((v >> 12) & 0x0F) as u8,
    ;
    assert(b3 >= 0xf0 && b3 <= 0xf7) by (bit_vector)
        requires
            b3 == 0xF0 | ((v >> 18) & 0x7) as u8,
    ;
    assert(k1 >= 0x80) by (bit_vector)
        requires
            k1 == 0x80 | (v & 0x3F) as u8,
    ;
    assert(k2 >= 0x80) by (bit_vector)
        requires
            k2 == 0x80 | ((v >> 6) & 0x3F) as u8,
    ;
    assert(k3 >= 0x80) by (bit_vector)
        requires
            k3 == 0x80 | ((v >> 12) & 0x3F) as u8,
    ;
}

/// A text without `\n` encodes to bytes without 10; a non-empty text's
/// encoding starts with a byte that is not a continuation byte.
proof fn lemma_encode_no_newline(m: Seq<char>)
    ensures
        (forall|i: int| 0 <= i < m.len() ==> #[trigger] m[i] != '\n') ==> (forall|j: int| 0 <= j < encode_utf8(m).len() ==> #[trigger] encode_utf8(m)[j] != 10),
        m.len() > 0 ==> encode_utf8(m).len() > 0 && !is_continuation_byte(encode_utf8(m)[0]),
    decreases m.len(),
{
    if m.len() > 0 {
        lemma_encode_no_newline(m.drop_first());
        lemma_encode_scalar_bytes(m[0]);
        let e = encode_scalar(m[0] as u32);
        let r = encode_utf8(m.drop_first());
        assert(encode_utf8(m) == e + r);
        assert((e + r)[0] == e[0]);
        if forall|i: int| 0 <= i < m.len() ==> m[i] != '\n' {
            assert(m[0] != '\n');
            assert forall|i: int| 0 <= i < m.drop_first().len() implies m.drop_first()[i] != '\n' by {
                assert(m.drop_first()[i] == m[i + 1]);
            }
            assert forall|j: int| 0 <= j < encode_utf8(m).len() implies encode_utf8(m)[j] != 10 by {
                if j < e.len() {
                    assert((e + r)[j] == e[j]);
                } else {
                    assert((e + r)[j] == r[j - e.len()]);
                }
            }
        }
    }
}

proof fn lemma_three_digits(code: u16)
    requires
        100 <= code <= 999,
    ensures
        decimal(code as nat) == seq![
            digit_char((code / 100) as nat),
            digit_char(((code / 10) % 10) as nat),
            digit_char((code % 10) as nat),
        ],
{
    reveal_with_fuel(decimal, 3);
    assert((code as nat / 10) / 10 == code / 100);
    assert(decimal(code as nat) =~= seq![
        digit_char((code / 100) as nat),
        digit_char(((code / 10) % 10) as nat),
        digit_char((code % 10) as nat),
    ]);
}

proof fn lemma_digit_byte(d: nat)
    requires
        d < 10,
    ensures
        encode_utf8(seq![digit_char(d)]) == seq![(48 + d) as u8],
        is_digit((48 + d) as u8),
        digit_value((48 + d) as u8) == d,
{
    let c = digit_char(d);
    assert(c as u32 == 48 + d);
    assert(is_ascii_chars(seq![c]));
    is_ascii_chars_encode_utf8(seq![c]);
    assert(encode_utf8(seq![c]) =~= seq![(48 + d) as u8]);
}

/// A single-line reply written out as text (as [`SmtpResponse::to_string`]
/// gives it) and ended with CRLF reads back as the same reply, for any
/// three-digit code and any message without a line-feed.
pub proof fn law_reply_roundtrip(code: u16, message: Seq<char>)
    requires
        100 <= code <= 999,
        forall|i: int| 0 <= i < message.len() ==> message[i] != '\n',
    ensures
        reply_of(encode_utf8(decimal(code as nat) + seq![' '] + message + seq!['\r', '\n']))
            == Some((code, message)),
{
    let d0 = (code / 100) as nat;
    let d1 = ((code / 10) % 10) as nat;
    let d2 = (code % 10) as nat;
    lemma_three_digits(code);
    lemma_digit_byte(d0);
    lemma_digit_byte(d1);
    lemma_digit_byte(d2);
    let text = decimal(code as nat) + seq![' '] + message + seq!['\r', '\n'];
    let head = seq![digit_char(d0), digit_char(d1), digit_char(d2), ' '];
    let tail = seq!['\r', '\n'];
    assert(text =~= head + message + tail);
    assert(is_ascii_chars(head));
    is_ascii_chars_encode_utf8(head);
    assert(is_ascii_chars(tail));
    is_ascii_chars_encode_utf8(tail);
    let hb = encode_utf8(head);
    let mb = encode_utf8(message);
    let tb = encode_utf8(tail);
    assert(hb =~= seq![(48 + d0) as u8, (48 + d1) as u8, (48 + d2) as u8, 32u8]);
    assert(tb =~= seq![13u8, 10u8]);
    lemma_encode_concat(head + message, tail);
    lemma_encode_concat(head, message);
    let data = encode_utf8(text);
    assert(data =~= hb + mb + tb);
    encode_utf8_valid_utf8(text);
    lemma_encode_no_newline(message);
    let n = data.len() as int;
    assert forall|i: int| 0 <= i < n - 1 implies data[i] != 10 by {
        if i < 4 {
            assert(data[i] == hb[i]);
        } else if i < 4 + mb.len() {
            assert(data[i] == mb[i - 4]);
        } else {
            assert(data[i] == tb[i - 4 - mb.len()]);
        }
    }
    assert(data[n - 1] == 10);
    assert(data[n - 2] == 13);
    lemma_newline_from_is(data, 0, n - 1);
    assert(line_end(data, 0) == n - 2);
    assert(data[3] == 32);
    assert(code_value(data[0], data[1], data[2]) == Some(code));
    if mb.len() > 0 {
        assert(data[4] == mb[0]);
    }
    assert(data.subrange(4, n - 2) =~= mb);
    assert(reply_scan(data) == ReplyScan::Complete(code, seq![mb]));
    encode_utf8_decode_utf8(message);
}

} // verus!
