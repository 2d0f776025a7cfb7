//! LSP-style message framing: every message is a block of `Name: value`
//! header lines ended by an empty line (`"\r\n\r\n"`), followed by exactly
//! `Content-Length` bytes of body.

use crate::gabp::text::{
    ascii_lower, char_is_white_space, chars_of, decimal_digits, eq_ignore_ascii_case, find_char,
    index_from, is_digit, is_white_space, lemma_decimal_digits, lemma_digit_facts,
    lemma_index_from, lemma_index_from_is, lemma_parse_decimal_digits, parse_unsigned,
    parse_unsigned_chars, push_decimal, trim, trim_end, trim_start,
};
use vstd::prelude::*;
use vstd::utf8::*;

verus! {

broadcast use vstd::string::group_string_axioms;

/// Why a buffered stream cannot be split into frames.
#[derive(Debug, Clone, PartialEq, Eq, Structural)]
pub enum FrameError {
    MissingContentLength,
    InvalidContentLength,
    MessageTooLarge { length: usize, max: usize },
}

/// The largest body that the bridge accepts in one frame.
pub const MAX_FRAME_BYTES: usize = 1024 * 1024;

// ---------------------------------------------------------------------------
// Encoding
// ---------------------------------------------------------------------------

/// ASCII text as bytes, one byte per character.
pub open spec fn ascii_bytes(text: Seq<char>) -> Seq<u8> {
    text.map_values(|c: char| c as u8)
}

/// The header block that announces a body of `len` bytes.
pub open spec fn frame_header_text(len: nat) -> Seq<char> {
    "Content-Length: "@ + decimal_digits(len) + "\r\nContent-Type: application/json\r\n\r\n"@
}

/// The complete frame for `body`: its header block, then the body itself.
pub open spec fn frame_bytes(body: Seq<u8>) -> Seq<u8> {
    ascii_bytes(frame_header_text(body.len())) + body
}

/// Appends the bytes of an ASCII string slice.
fn push_ascii(out: &mut Vec<u8>, s: &str)
    requires
        s.is_ascii(),
    ensures
        final(out)@ == old(out)@ + ascii_bytes(s@),
{
    let bytes = s.as_bytes();
    proof {
        vstd::string::is_ascii_spec_bytes(s);
    }
    let mut i: usize = 0;
    while i < bytes.len()
        invariant
            i <= bytes@.len(),
            bytes@ == Seq::new(s@.len(), |j: int| s@[j] as u8),
            out@ == old(out)@ + ascii_bytes(s@).take(i as int),
        decreases bytes@.len() - i,
    {
        out.push(bytes[i]);
        i = i + 1;
        proof {
            assert(ascii_bytes(s@).take(i as int) =~= ascii_bytes(s@).take(i - 1).push(
                bytes@[i - 1],
            ));
        }
    }
    proof {
        assert(ascii_bytes(s@).take(i as int) =~= ascii_bytes(s@));
    }
}

/// Frames `value` with a `Content-Length` and a JSON `Content-Type` header.
pub fn encode_frame(value: &[u8]) -> (out: Vec<u8>)
    ensures
        out@ == frame_bytes(value@),
{
    let mut out: Vec<u8> = Vec::new();
    proof {
        reveal_strlit("Content-Length: ");
        reveal_strlit("\r\nContent-Type: application/json\r\n\r\n");
    }
    push_ascii(&mut out, "Content-Length: ");
    push_decimal(&mut out, value.len());
    push_ascii(&mut out, "\r\nContent-Type: application/json\r\n\r\n");
    let ghost header = out@;
    out.extend_from_slice(value);
    proof {
        let text = frame_header_text(value@.len());
        assert(ascii_bytes(text) =~= ascii_bytes("Content-Length: "@) + decimal_digits(
            value@.len(),
        ).map_values(|c: char| c as u8) + ascii_bytes(
            "\r\nContent-Type: application/json\r\n\r\n"@,
        ));
        assert(out@ =~= header + value@);
    }
    out
}

// ---------------------------------------------------------------------------
// Decoding
// ---------------------------------------------------------------------------

/// `b[i..i + 4]` is the end-of-header marker `"\r\n\r\n"`.
pub open spec fn terminator_at(b: Seq<u8>, i: int) -> bool {
    &&& 0 <= i
    &&& i + 4 <= b.len()
    &&& b[i] == 13 && b[i + 1] == 10 && b[i + 2] == 13 && b[i + 3] == 10
}

/// The first position at or after `from` where the end-of-header marker starts.
pub open spec fn find_terminator_from(b: Seq<u8>, from: int) -> Option<int>
    decreases b.len() - from,
{
    if from < 0 || from + 4 > b.len() {
        None
    } else if terminator_at(b, from) {
        Some(from)
    } else {
        find_terminator_from(b, from + 1)
    }
}

/// Where the header block of the first frame in `b` ends: the first `"\r\n\r\n"`.
pub open spec fn header_end(b: Seq<u8>) -> Option<int> {
    find_terminator_from(b, 0)
}

/// What `String::from_utf8_lossy` makes of bytes that are not valid UTF-8.
pub uninterp spec fn utf8_lossy_invalid(bytes: Seq<u8>) -> Seq<char>;

/// The text of a header block as `String::from_utf8_lossy` decodes it.
pub open spec fn lossy_text(bytes: Seq<u8>) -> Seq<char> {
    if valid_utf8(bytes) {
        decode_utf8(bytes)
    } else {
        utf8_lossy_invalid(bytes)
    }
}

/// `String::from_utf8_lossy`: valid UTF-8 is decoded as it stands; invalid
/// input is decoded with replacement characters, which this contract names
/// but does not spell out.
#[verifier::external_body]
fn decode_lossy(bytes: &[u8]) -> (text: String)
    ensures
        valid_utf8(bytes@) ==> text@ == decode_utf8(bytes@),
        !valid_utf8(bytes@) ==> text@ == utf8_lossy_invalid(bytes@),
{
    String::from_utf8_lossy(bytes).into_owned()
}

/// The line that starts at `start` and whose `'\n'` (or the end of the text)
/// is at `end`; a line ended by `"\r\n"` loses the `'\r'` too.
pub open spec fn line_text(s: Seq<char>, start: int, end: int) -> Seq<char> {
    let piece = s.subrange(start, end);
    if end < s.len() && piece.len() > 0 && piece.last() == '\r' {
        piece.drop_last()
    } else {
        piece
    }
}

/// The lines of `s` from position `start` on, as `str::lines` yields them.
pub open spec fn lines_from(s: Seq<char>, start: int) -> Seq<Seq<char>>
    decreases s.len() - start,
{
    if start < 0 || start >= s.len() {
        seq![]
    } else {
        let end = index_from(s, '\n', start);
        if end >= s.len() {
            seq![line_text(s, start, end)]
        } else {
            proof {
                lemma_index_from(s, '\n', start);
            }
            seq![line_text(s, start, end)] + lines_from(s, end + 1)
        }
    }
}

/// `str::lines`.
pub open spec fn lines(s: Seq<char>) -> Seq<Seq<char>> {
    lines_from(s, 0)
}

/// A header line split at its first `':'` into name and value.
pub open spec fn header_field(line: Seq<char>) -> Option<(Seq<char>, Seq<char>)> {
    let k = index_from(line, ':', 0);
    if k < line.len() {
        Some((line.take(k), line.skip(k + 1)))
    } else {
        None
    }
}

/// The value of the first `Content-Length` field (name compared without
/// regard to ASCII case, value trimmed and read as a `usize`).
pub open spec fn content_length_of_lines(ls: Seq<Seq<char>>) -> Result<usize, FrameError>
    decreases ls.len(),
{
    if ls.len() == 0 {
        Err(FrameError::MissingContentLength)
    } else {
        match header_field(ls[0]) {
            Some((name, value)) if eq_ignore_ascii_case(name, "Content-Length"@) => {
                match parse_unsigned(trim(value), usize::MAX as nat) {
                    Some(n) => Ok(n as usize),
                    None => Err(FrameError::InvalidContentLength),
                }
            },
            _ => content_length_of_lines(ls.drop_first()),
        }
    }
}

/// The body length that a header block announces.
pub open spec fn content_length(header: Seq<char>) -> Result<usize, FrameError> {
    content_length_of_lines(lines(header))
}

/// Splits as many complete frames off the front of `buf` as it holds.
/// Returns the bodies in order, the bytes left over (from the first frame
/// that is incomplete or in error on), and the error that stopped it, if any.
pub open spec fn drain_frames(buf: Seq<u8>, max: usize) -> (Seq<Seq<u8>>, Seq<u8>, Option<
    FrameError,
>)
    decreases buf.len(),
{
    match header_end(buf) {
        None => (seq![], buf, None),
        Some(h) => match content_length(lossy_text(buf.take(h))) {
            Err(e) => (seq![], buf, Some(e)),
            Ok(len) => if len > max {
                (seq![], buf, Some(FrameError::MessageTooLarge { length: len, max }))
            } else if buf.len() < h + 4 + len {
                (seq![], buf, None)
            } else {
                let end = h + 4 + len;
                proof {
                    lemma_find_terminator_bounds(buf, 0);
                }
                let (ms, rest, err) = drain_frames(buf.skip(end), max);
                (seq![buf.subrange(h + 4, end)] + ms, rest, err)
            },
        },
    }
}

pub proof fn lemma_find_terminator_bounds(b: Seq<u8>, from: int)
    ensures
        find_terminator_from(b, from) matches Some(p) ==> from <= p && terminator_at(b, p) && (
        forall|j: int| from <= j < p ==> !terminator_at(b, j)),
    decreases b.len() - from,
{
    if !(from < 0 || from + 4 > b.len()) && !terminator_at(b, from) {
        lemma_find_terminator_bounds(b, from + 1);
    }
}

/// The position of the first `"\r\n\r\n"` in `buffer`.
fn find_header_end(buffer: &Vec<u8>) -> (r: Option<usize>)
    ensures
        r matches Some(i) ==> header_end(buffer@) == Some(i as int),
        r is None ==> header_end(buffer@) is None,
{
    let n = buffer.len();
    let mut i: usize = 0;
    while i < n && n - i >= 4
        invariant
            n == buffer@.len(),
            i <= n,
            header_end(buffer@) == find_terminator_from(buffer@, i as int),
        decreases n - i,
    {
        if buffer[i] == 13 && buffer[i + 1] == 10 && buffer[i + 2] == 13 && buffer[i + 3] == 10 {
            return Some(i);
        }
        i = i + 1;
    }
    None
}

/// ASCII letters mapped to lower case.
fn char_ascii_lower(c: char) -> (r: char)
    ensures
        r == ascii_lower(c),
{
    let u = c as u32;
    if 65 <= u && u <= 90 {
        proof {
            assert(((u + 32) as u32) == (c as u32) + 32);
        }
        let l = (u + 32) as u8;
        l as char
    } else {
        c
    }
}

/// `v[start..end]` equals `target` without regard to ASCII case.
fn matches_ignore_ascii_case(v: &Vec<char>, start: usize, end: usize, target: &Vec<char>) -> (r:
    bool)
    requires
        start <= end <= v.len(),
    ensures
        r == eq_ignore_ascii_case(v@.subrange(start as int, end as int), target@),
{
    let ghost a = v@.subrange(start as int, end as int);
    if end - start != target.len() {
        return false;
    }
    let mut i: usize = 0;
    while i < target.len()
        invariant
            end - start == target@.len(),
            start <= end <= v.len(),
            a == v@.subrange(start as int, end as int),
            i <= target@.len(),
            forall|j: int| 0 <= j < i ==> ascii_lower(#[trigger] a[j]) == ascii_lower(target@[j]),
        decreases target@.len() - i,
    {
        if char_ascii_lower(v[start + i]) != char_ascii_lower(target[i]) {
            proof {
                assert(a[i as int] == v@[start + i]);
            }
            return false;
        }
        proof {
            assert(a[i as int] == v@[start + i]);
        }
        i = i + 1;
    }
    true
}

/// Narrows `v[a..b]` to its trimmed part.
fn trim_range(v: &Vec<char>, a: usize, b: usize) -> (r: (usize, usize))
    requires
        a <= b <= v.len(),
    ensures
        a <= r.0 <= r.1 <= b,
        v@.subrange(r.0 as int, r.1 as int) == trim(v@.subrange(a as int, b as int)),
{
    let mut x = a;
    while x < b && char_is_white_space(v[x])
        invariant
            a <= x <= b <= v.len(),
            trim_start(v@.subrange(a as int, b as int)) == trim_start(
                v@.subrange(x as int, b as int),
            ),
        decreases b - x,
    {
        proof {
            assert(v@.subrange(x as int, b as int).drop_first() =~= v@.subrange(x + 1, b as int));
        }
        x = x + 1;
    }
    proof {
        assert(trim_start(v@.subrange(x as int, b as int)) == v@.subrange(x as int, b as int));
    }
    let mut y = b;
    while y > x && char_is_white_space(v[y - 1])
        invariant
            a <= x <= y <= b <= v.len(),
            trim_start(v@.subrange(a as int, b as int)) == v@.subrange(x as int, b as int),
            trim_end(v@.subrange(x as int, b as int)) == trim_end(v@.subrange(x as int, y as int)),
        decreases y - x,
    {
        proof {
            assert(v@.subrange(x as int, y as int).drop_last() =~= v@.subrange(x as int, y - 1));
        }
        y = y - 1;
    }
    proof {
        assert(trim_end(v@.subrange(x as int, y as int)) == v@.subrange(x as int, y as int));
    }
    (x, y)
}

/// Reads the first `Content-Length` field of a header block.
fn parse_content_length(header: &Vec<char>) -> (r: Result<usize, FrameError>)
    ensures
        r == content_length(header@),
{
    proof {
        reveal_strlit("Content-Length");
    }
    let field_name = chars_of("Content-Length");
    let n = header.len();
    let mut start: usize = 0;
    while start < n
        invariant
            n == header@.len(),
            start <= n,
            field_name@ == "Content-Length"@,
            content_length(header@) == content_length_of_lines(lines_from(header@, start as int)),
        decreases n - start,
    {
        let ghost h = header@;
        let end = find_char(header, '\n', start, n);
        proof {
            lemma_index_from_is(h, '\n', start as int, end as int);
        }
        let mut line_end = end;
        if end < n && end > start && header[end - 1] == '\r' {
            line_end = end - 1;
        }
        let ghost line = line_text(h, start as int, end as int);
        let ghost rest = if end >= n {
            Seq::<Seq<char>>::empty()
        } else {
            lines_from(h, end + 1)
        };
        proof {
            assert(line =~= h.subrange(start as int, line_end as int));
            assert(lines_from(h, start as int) =~= seq![line] + rest);
            assert((seq![line] + rest)[0] == line);
            assert((seq![line] + rest).drop_first() =~= rest);
        }
        let colon = find_char(header, ':', start, line_end);
        proof {
            assert forall|j: int| 0 <= j < colon - start implies line[j] != ':' by {
                assert(line[j] == h[start + j]);
            }
            if colon < line_end {
                assert(line[colon - start] == h[colon as int]);
            }
            lemma_index_from_is(line, ':', 0, colon - start);
        }
        if colon < line_end && matches_ignore_ascii_case(header, start, colon, &field_name) {
            proof {
                assert(line.take(colon - start) =~= h.subrange(start as int, colon as int));
                assert(line.skip(colon - start + 1) =~= h.subrange(colon + 1, line_end as int));
            }
            let (a, b) = trim_range(header, colon + 1, line_end);
            return match parse_unsigned_chars(header, a, b, usize::MAX) {
                Some(v) => Ok(v),
                None => Err(FrameError::InvalidContentLength),
            };
        }
        proof {
            if colon < line_end {
                assert(line.take(colon - start) =~= h.subrange(start as int, colon as int));
            }
        }
        if end >= n {
            proof {
                assert(rest =~= Seq::<Seq<char>>::empty());
                assert(content_length_of_lines(rest) == Err::<usize, FrameError>(
                    FrameError::MissingContentLength,
                ));
            }
            return Err(FrameError::MissingContentLength);
        }
        start = end + 1;
    }
    Err(FrameError::MissingContentLength)
}

/// A copy of `v[a..b]`.
fn copy_range(v: &Vec<u8>, a: usize, b: usize) -> (r: Vec<u8>)
    requires
        a <= b <= v.len(),
    ensures
        r@ == v@.subrange(a as int, b as int),
{
    let mut r: Vec<u8> = Vec::new();
    let mut i = a;
    while i < b
        invariant
            a <= i <= b <= v.len(),
            r@ == v@.subrange(a as int, i as int),
        decreases b - i,
    {
        r.push(v[i]);
        i = i + 1;
        proof {
            assert(r@ =~= v@.subrange(a as int, i as int));
        }
    }
    r
}

/// The bodies of a list of frames, as byte sequences.
pub open spec fn bodies_view(ms: Seq<Vec<u8>>) -> Seq<Seq<u8>> {
    ms.map_values(|m: Vec<u8>| m@)
}

/// Reassembles frames from a byte stream that may arrive in pieces of any size.
pub struct FrameDecoder {
    buffer: Vec<u8>,
    max_frame_bytes: usize,
}

impl FrameDecoder {
    /// The bytes received but not yet handed out as part of a frame.
    pub closed spec fn buffered(&self) -> Seq<u8> {
        self.buffer@
    }

    /// The largest body this decoder accepts.
    pub closed spec fn limit(&self) -> usize {
        self.max_frame_bytes
    }

    /// A decoder with nothing buffered.
    pub fn new(max_frame_bytes: usize) -> (d: Self)
        ensures
            d.buffered() == Seq::<u8>::empty(),
            d.limit() == max_frame_bytes,
    {
        FrameDecoder { buffer: Vec::new(), max_frame_bytes }
    }

    /// Appends `bytes` to the buffer and splits off every complete frame.
    /// On an error the frames split off before it are dropped and the buffer
    /// keeps the bytes from the frame in error on.
    pub fn push(&mut self, bytes: &[u8]) -> (r: Result<Vec<Vec<u8>>, FrameError>)
        ensures
            final(self).limit() == old(self).limit(),
            ({
                let (msgs, rest, err) = drain_frames(
                    old(self).buffered() + bytes@,
                    old(self).limit(),
                );
                &&& final(self).buffered() == rest
                &&& match err {
                    Some(e) => r == Err::<Vec<Vec<u8>>, FrameError>(e),
                    None => r matches Ok(ms) && bodies_view(ms@) == msgs,
                }
            }),
    {
        let ghost start = self.buffer@;
        self.buffer.extend_from_slice(bytes);
        let ghost total = self.buffer@;
        proof {
            assert(total =~= start + bytes@);
        }
        let max = self.max_frame_bytes;
        let mut messages: Vec<Vec<u8>> = Vec::new();
        loop
            invariant
                max == self.max_frame_bytes,
                max == old(self).max_frame_bytes,
                total == old(self).buffer@ + bytes@,
                ({
                    let (m_all, r_all, e_all) = drain_frames(total, max);
                    let (m_now, r_now, e_now) = drain_frames(self.buffer@, max);
                    &&& m_all == bodies_view(messages@) + m_now
                    &&& r_all == r_now
                    &&& e_all == e_now
                }),
            decreases self.buffer@.len(),
        {
            let ghost cur = self.buffer@;
            let found = find_header_end(&self.buffer);
            let h = match found {
                None => {
                    proof {
                        assert(bodies_view(messages@) + Seq::<Seq<u8>>::empty() =~= bodies_view(
                            messages@,
                        ));
                    }
                    return Ok(messages);
                },
                Some(h) => h,
            };
            proof {
                lemma_find_terminator_bounds(cur, 0);
                assert(terminator_at(cur, h as int));
            }
            let header_bytes = copy_range(&self.buffer, 0, h);
            proof {
                assert(header_bytes@ =~= cur.take(h as int));
            }
            let text = decode_lossy(header_bytes.as_slice());
            let header = chars_of(text.as_str());
            proof {
                assert(header@ == lossy_text(cur.take(h as int)));
            }
            let length = match parse_content_length(&header) {
                Ok(length) => length,
                Err(e) => {
                    proof {
                        assert(header_end(cur) == Some(h as int));
                        assert(content_length(lossy_text(cur.take(h as int))) == Err::<
                            usize,
                            FrameError,
                        >(e));
                        assert(drain_frames(cur, max).2 == Some(e));
                    }
                    return Err(e);
                },
            };
            if length > max {
                proof {
                    assert(drain_frames(cur, max).2 == Some(
                        FrameError::MessageTooLarge { length, max },
                    ));
                }
                return Err(FrameError::MessageTooLarge { length, max });
            }
            let buffer_len = self.buffer.len();
            let body_start = h + 4;
            if buffer_len - body_start < length {
                proof {
                    assert(bodies_view(messages@) + Seq::<Seq<u8>>::empty() =~= bodies_view(
                        messages@,
                    ));
                }
                return Ok(messages);
            }
            let body_end = body_start + length;
            let body = copy_range(&self.buffer, body_start, body_end);
            let remaining = copy_range(&self.buffer, body_end, buffer_len);
            let ghost before = bodies_view(messages@);
            messages.push(body);
            self.buffer = remaining;
            proof {
                assert(remaining@ =~= cur.skip(body_end as int));
                assert(bodies_view(messages@) =~= before.push(body@));
                let (m_now, r_now, e_now) = drain_frames(remaining@, max);
                assert(drain_frames(cur, max).0 == seq![body@] + m_now);
                assert(before + (seq![body@] + m_now) =~= bodies_view(messages@) + m_now);
            }
        }
    }
}

// ---------------------------------------------------------------------------
// Laws of the framing
// ---------------------------------------------------------------------------

proof fn lemma_find_terminator_prefix(a: Seq<u8>, b: Seq<u8>, from: int)
    requires
        find_terminator_from(a, from) is Some,
    ensures
        find_terminator_from(a + b, from) == find_terminator_from(a, from),
    decreases a.len() - from,
{
    if !(from < 0 || from + 4 > a.len()) {
        assert(terminator_at(a + b, from) == terminator_at(a, from));
        if !terminator_at(a, from) {
            lemma_find_terminator_prefix(a, b, from + 1);
        }
    }
}

proof fn lemma_find_terminator_is(b: Seq<u8>, from: int, p: int)
    requires
        0 <= from <= p,
        terminator_at(b, p),
        forall|j: int| from <= j < p ==> !terminator_at(b, j),
    ensures
        find_terminator_from(b, from) == Some(p),
    decreases p - from,
{
    if from < p {
        lemma_find_terminator_is(b, from + 1, p);
    }
}

/// Frames are split off the same way however the stream is cut into
/// pieces: draining `a` and then the leftover followed by `b` gives the
/// frames, leftover and error that draining `a + b` at once gives, as long
/// as draining `a` met no error.
pub proof fn law_drain_in_pieces(a: Seq<u8>, b: Seq<u8>, max: usize)
    requires
        drain_frames(a, max).2 is None,
    ensures
        ({
            let (m1, r1, e1) = drain_frames(a, max);
            let (m2, r2, e2) = drain_frames(r1 + b, max);
            drain_frames(a + b, max) == (m1 + m2, r2, e2)
        }),
    decreases a.len(),
{
    let (m1, r1, e1) = drain_frames(a, max);
    let (m2, r2, e2) = drain_frames(r1 + b, max);
    match header_end(a) {
        None => {
            assert(m1 + m2 =~= m2);
        },
        Some(h) => {
            lemma_find_terminator_bounds(a, 0);
            lemma_find_terminator_prefix(a, b, 0);
            assert((a + b).take(h) =~= a.take(h));
            match content_length(lossy_text(a.take(h))) {
                Err(e) => {},
                Ok(len) => {
                    if len > max {
                    } else if a.len() < h + 4 + len {
                        assert(m1 + m2 =~= m2);
                    } else {
                        let end = h + 4 + len;
                        assert((a + b).subrange(h + 4, end) =~= a.subrange(h + 4, end));
                        assert((a + b).skip(end) =~= a.skip(end) + b);
                        law_drain_in_pieces(a.skip(end), b, max);
                        let (ms, rest, err) = drain_frames(a.skip(end), max);
                        let (ms2, rest2, err2) = drain_frames(rest + b, max);
                        assert(seq![a.subrange(h + 4, end)] + (ms + ms2) =~= (seq![
                            a.subrange(h + 4, end),
                        ] + ms) + ms2);
                    }
                },
            }
        },
    }
}

/// What draining leaves over holds no complete frame: draining it again
/// splits off nothing, leaves it as it is and meets the same error, if any.
pub proof fn law_drain_leftover_is_stable(buf: Seq<u8>, max: usize)
    ensures
        ({
            let (ms, rest, err) = drain_frames(buf, max);
            drain_frames(rest, max) == (Seq::<Seq<u8>>::empty(), rest, err)
        }),
    decreases buf.len(),
{
    match header_end(buf) {
        None => {},
        Some(h) => {
            lemma_find_terminator_bounds(buf, 0);
            match content_length(lossy_text(buf.take(h))) {
                Err(e) => {},
                Ok(len) => {
                    if len <= max && buf.len() >= h + 4 + len {
                        law_drain_leftover_is_stable(buf.skip(h + 4 + len), max);
                    }
                },
            }
        },
    }
}

/// Every body split off is no longer than the limit.
pub proof fn law_drained_bodies_within_limit(buf: Seq<u8>, max: usize)
    ensures
        forall|i: int|
            0 <= i < drain_frames(buf, max).0.len() ==> #[trigger] drain_frames(
                buf,
                max,
            ).0[i].len() <= max,
    decreases buf.len(),
{
    match header_end(buf) {
        None => {},
        Some(h) => {
            lemma_find_terminator_bounds(buf, 0);
            match content_length(lossy_text(buf.take(h))) {
                Err(e) => {},
                Ok(len) => {
                    if len <= max && buf.len() >= h + 4 + len {
                        let end = h + 4 + len;
                        law_drained_bodies_within_limit(buf.skip(end), max);
                        let ms = drain_frames(buf.skip(end), max).0;
                        assert forall|i: int|
                            0 <= i < drain_frames(buf, max).0.len() implies #[trigger] drain_frames(
                            buf,
                            max,
                        ).0[i].len() <= max by {
                            if i > 0 {
                                assert(drain_frames(buf, max).0[i] == ms[i - 1]);
                            }
                        }
                    }
                },
            }
        },
    }
}

/// ASCII text encoded one byte per character decodes back to the same text.
proof fn lemma_ascii_decodes(c: Seq<char>)
    requires
        is_ascii_chars(c),
    ensures
        valid_utf8(ascii_bytes(c)),
        decode_utf8(ascii_bytes(c)) == c,
{
    is_ascii_chars_encode_utf8(c);
    assert(encode_utf8(c) =~= ascii_bytes(c));
    encode_utf8_valid_utf8(c);
    encode_utf8_decode_utf8(c);
}

/// The header block announcing `n` bytes, up to (not including) its final
/// `"\r\n\r\n"`, holds the field `Content-Length` with value `n`.
proof fn lemma_frame_header_parses(n: nat)
    requires
        n <= usize::MAX,
    ensures
        ({
            let t = frame_header_text(n);
            &&& t.len() >= 4
            &&& is_ascii_chars(t)
            &&& content_length(t.take(t.len() - 4)) == Ok::<usize, FrameError>(n as usize)
        }),
{
    reveal_strlit("Content-Length: ");
    reveal_strlit("\r\nContent-Type: application/json\r\n\r\n");
    reveal_strlit("Content-Length");
    let p = "Content-Length: "@;
    let q = "\r\nContent-Type: application/json\r\n\r\n"@;
    let d = decimal_digits(n);
    lemma_decimal_digits(n);
    let t = frame_header_text(n);
    assert(t == p + d + q);
    assert(p.len() == 16);
    assert(q.len() == 36);
    assert forall|i: int| 0 <= i < d.len() implies '\0' <= #[trigger] d[i] <= '\u{7f}' by {
        lemma_digit_facts(d[i]);
    }
    assert(is_ascii_chars(t)) by {
        assert forall|i: int| 0 <= i < t.len() implies '\0' <= #[trigger] t[i] <= '\u{7f}' by {
            if i < 16 {
                assert(t[i] == p[i]);
            } else if i < 16 + d.len() {
                assert(t[i] == d[i - 16]);
            } else {
                assert(t[i] == q[i - 16 - d.len()]);
            }
        }
    }
    let h = t.take(t.len() - 4);
    let dl = d.len() as int;
    // The first line ends at the first '\n', right after the digits.
    let e = 16 + dl + 1;
    assert forall|j: int| 0 <= j < e implies h[j] != '\n' by {
        if j < 16 {
            assert(h[j] == p[j]);
        } else if j < 16 + dl {
            assert(h[j] == d[j - 16]);
            assert(is_digit(d[j - 16]));
        } else {
            assert(h[j] == q[0]);
        }
    }
    assert(h[e] == '\n');
    lemma_index_from_is(h, '\n', 0, e);
    let line1 = line_text(h, 0, e);
    assert(line1 =~= p + d) by {
        assert(h.subrange(0, e).last() == '\r');
        assert(h.subrange(0, e).drop_last() =~= p + d);
    }
    assert(lines(h)[0] == line1);
    // The first line is the field `Content-Length` with value `" " + digits`.
    assert forall|j: int| 0 <= j < 14 implies line1[j] != ':' by {
        assert(line1[j] == p[j]);
    }
    assert(line1[14] == ':');
    lemma_index_from_is(line1, ':', 0, 14);
    assert(line1.take(14) =~= "Content-Length"@);
    let value = line1.skip(15);
    assert(value =~= seq![' '] + d);
    assert(trim_start(value) == trim_start(value.drop_first()));
    assert(value.drop_first() =~= d);
    assert(!is_white_space(d[0])) by {
        assert(is_digit(d[0]));
    }
    assert(trim_start(d) == d);
    assert(!is_white_space(d.last())) by {
        assert(is_digit(d[dl - 1]));
    }
    assert(trim_end(d) == d);
    assert(trim(value) == d);
    lemma_parse_decimal_digits(n, usize::MAX as nat);
    assert(eq_ignore_ascii_case(line1.take(14), "Content-Length"@));
    assert(header_field(line1) == Some((line1.take(14), line1.skip(15))));
}

/// The header block of a frame announcing `n` bytes, as bytes: its first
/// `"\r\n\r\n"` is its last four bytes, and the text before them declares
/// `Content-Length: n`.
proof fn lemma_header_bytes(n: nat)
    requires
        n <= usize::MAX,
    ensures
        ({
            let t = frame_header_text(n);
            let hb = ascii_bytes(t);
            let k = t.len() - 4;
            &&& k >= 0
            &&& hb.len() == t.len()
            &&& terminator_at(hb, k)
            &&& forall|j: int| 0 <= j < k ==> !terminator_at(hb, j)
            &&& content_length(lossy_text(hb.take(k))) == Ok::<usize, FrameError>(n as usize)
        }),
{
    reveal_strlit("\r\nContent-Type: application/json\r\n\r\n");
    reveal_strlit("Content-Length: ");
    lemma_frame_header_parses(n);
    let t = frame_header_text(n);
    let hb = ascii_bytes(t);
    let k = t.len() - 4;
    let p = "Content-Length: "@;
    let q = "\r\nContent-Type: application/json\r\n\r\n"@;
    let d = decimal_digits(n);
    lemma_decimal_digits(n);
    let dl = d.len() as int;
    assert(t == p + d + q);
    assert(k == 16 + dl + 32);
    assert(terminator_at(hb, k)) by {
        assert(t[k] == q[32]);
        assert(t[k + 1] == q[33]);
        assert(t[k + 2] == q[34]);
        assert(t[k + 3] == q[35]);
    }
    assert forall|j: int| 0 <= j < k implies !terminator_at(hb, j) by {
        assert(hb[j] == t[j] as u8);
        if j < 16 {
            assert(t[j] == p[j]);
        } else if j < 16 + dl {
            assert(t[j] == d[j - 16]);
            assert(is_digit(d[j - 16]));
        } else if j == 16 + dl {
            assert(hb[j + 2] == t[j + 2] as u8);
            assert(t[j + 2] == q[2]);
        } else {
            assert(t[j] == q[j - 16 - dl]);
        }
    }
    assert(hb.take(k) =~= ascii_bytes(t.take(k)));
    assert(is_ascii_chars(t.take(k)));
    lemma_ascii_decodes(t.take(k));
}

/// A stream that starts with the whole header block for `n` bytes has its
/// header end where that block's does, and the same header text.
proof fn lemma_header_found(n: nat, g: Seq<u8>)
    requires
        n <= usize::MAX,
        g.len() >= frame_header_text(n).len(),
        g.take(frame_header_text(n).len() as int) == ascii_bytes(frame_header_text(n)),
    ensures
        header_end(g) == Some(frame_header_text(n).len() - 4),
        g.take(frame_header_text(n).len() - 4) == ascii_bytes(frame_header_text(n)).take(
            frame_header_text(n).len() - 4,
        ),
{
    lemma_header_bytes(n);
    let t = frame_header_text(n);
    let hb = ascii_bytes(t);
    let h = t.len() as int;
    let k = h - 4;
    assert forall|i: int| 0 <= i < h implies g[i] == #[trigger] hb[i] by {
        assert(g.take(h)[i] == g[i]);
    }
    assert(terminator_at(g, k)) by {
        assert(g[k] == hb[k] && g[k + 1] == hb[k + 1] && g[k + 2] == hb[k + 2] && g[k + 3]
            == hb[k + 3]);
    }
    assert forall|j: int| 0 <= j < k implies !terminator_at(g, j) by {
        assert(!terminator_at(hb, j));
        assert(g[j] == hb[j] && g[j + 1] == hb[j + 1] && g[j + 2] == hb[j + 2] && g[j + 3]
            == hb[j + 3]);
    }
    lemma_find_terminator_is(g, 0, k);
    assert(g.take(k) =~= hb.take(k));
}

proof fn lemma_find_terminator_none(b: Seq<u8>, from: int)
    requires
        0 <= from,
        forall|j: int| from <= j ==> !terminator_at(b, j),
    ensures
        find_terminator_from(b, from) is None,
    decreases b.len() - from,
{
    if from + 4 <= b.len() {
        lemma_find_terminator_none(b, from + 1);
    }
}

/// A stream cut off inside the header block for `n` bytes holds no header end.
proof fn lemma_header_cut(n: nat, g: Seq<u8>)
    requires
        n <= usize::MAX,
        g.len() < frame_header_text(n).len(),
        g == ascii_bytes(frame_header_text(n)).take(g.len() as int),
    ensures
        header_end(g) is None,
{
    lemma_header_bytes(n);
    let t = frame_header_text(n);
    let hb = ascii_bytes(t);
    let k = t.len() - 4;
    assert forall|j: int| 0 <= j implies !terminator_at(g, j) by {
        if j + 4 <= g.len() {
            assert(j < k);
            assert(!terminator_at(hb, j));
            assert(g[j] == hb[j] && g[j + 1] == hb[j + 1] && g[j + 2] == hb[j + 2] && g[j + 3]
                == hb[j + 3]);
        }
    }
    lemma_find_terminator_none(g, 0);
}

/// A frame made by [`encode_frame`] is split off whole, whatever follows it:
/// its body comes out first, then whatever `rest` yields on its own.
pub proof fn law_frame_round_trip(body: Seq<u8>, rest: Seq<u8>, max: usize)
    requires
        body.len() <= max,
    ensures
        ({
            let (m, r, e) = drain_frames(rest, max);
            drain_frames(frame_bytes(body) + rest, max) == (seq![body] + m, r, e)
        }),
{
    let n = body.len();
    let t = frame_header_text(n);
    let hb = ascii_bytes(t);
    let h = t.len() as int;
    let k = h - 4;
    let f = frame_bytes(body) + rest;
    lemma_header_bytes(n);
    assert(f.take(h) =~= hb);
    lemma_header_found(n, f);
    let end = k + 4 + n;
    assert(f.subrange(k + 4, end) =~= body);
    assert(f.skip(end) =~= rest);
}

/// A frame cut off before its end yields nothing yet, and no error: the
/// cut bytes stay buffered as they are.
proof fn lemma_frame_cut(body: Seq<u8>, m: int, max: usize)
    requires
        body.len() <= max,
        0 <= m < frame_bytes(body).len(),
    ensures
        drain_frames(frame_bytes(body).take(m), max) == (Seq::<Seq<u8>>::empty(), frame_bytes(
            body,
        ).take(m), None::<FrameError>),
{
    let n = body.len();
    let t = frame_header_text(n);
    let hb = ascii_bytes(t);
    let h = t.len() as int;
    let g = frame_bytes(body).take(m);
    lemma_header_bytes(n);
    if m < h {
        assert(g =~= hb.take(m));
        lemma_header_cut(n, g);
    } else {
        assert(g.take(h) =~= hb);
        lemma_header_found(n, g);
    }
}

/// The stream of the frames of `bodies`, one after another.
pub open spec fn frames_bytes(bodies: Seq<Seq<u8>>) -> Seq<u8>
    decreases bodies.len(),
{
    if bodies.len() == 0 {
        Seq::<u8>::empty()
    } else {
        frame_bytes(bodies[0]) + frames_bytes(bodies.drop_first())
    }
}

/// Pieces of a stream joined in order.
pub open spec fn joined(chunks: Seq<Seq<u8>>) -> Seq<u8>
    decreases chunks.len(),
{
    if chunks.len() == 0 {
        Seq::<u8>::empty()
    } else {
        chunks[0] + joined(chunks.drop_first())
    }
}

/// What pushing `chunks` one after another into a decoder that holds `buf`
/// gives, by the contract of [`FrameDecoder::push`]: the bodies that all
/// pushes returned, in order, and the bytes left buffered; or, from the
/// first push that fails, its error (its bodies are dropped, and the
/// pushes after it are not counted).
pub open spec fn push_all(buf: Seq<u8>, chunks: Seq<Seq<u8>>, max: usize) -> (
    Seq<Seq<u8>>,
    Seq<u8>,
    Option<FrameError>,
)
    decreases chunks.len(),
{
    if chunks.len() == 0 {
        (Seq::<Seq<u8>>::empty(), buf, None)
    } else {
        let (m1, r1, e1) = drain_frames(buf + chunks[0], max);
        if e1 is Some {
            (Seq::<Seq<u8>>::empty(), r1, e1)
        } else {
            let (m2, r2, e2) = push_all(r1, chunks.drop_first(), max);
            (m1 + m2, r2, e2)
        }
    }
}

/// However a stream is cut into pieces, pushing the pieces one after
/// another into a decoder gives what the whole stream gives at once, when
/// no push fails: the same bodies in the same order, and the same bytes
/// left over. The decoder starts from what a push leaves, a buffer that
/// holds no complete frame (for a new decoder, nothing).
pub proof fn law_push_in_any_pieces(buf: Seq<u8>, chunks: Seq<Seq<u8>>, max: usize)
    requires
        drain_frames(buf, max) == (Seq::<Seq<u8>>::empty(), buf, None::<FrameError>),
        push_all(buf, chunks, max).2 is None,
    ensures
        push_all(buf, chunks, max) == drain_frames(buf + joined(chunks), max),
    decreases chunks.len(),
{
    if chunks.len() == 0 {
        assert(buf + joined(chunks) =~= buf);
    } else {
        let a = buf + chunks[0];
        let rest = chunks.drop_first();
        let (m1, r1, e1) = drain_frames(a, max);
        law_drain_leftover_is_stable(a, max);
        law_push_in_any_pieces(r1, rest, max);
        law_drain_in_pieces(a, joined(rest), max);
        assert(buf + joined(chunks) =~= a + joined(rest));
    }
}

/// Cutting the frames of `bodies` at any point `m`: what is before the cut
/// yields the bodies of the frames it holds whole, with no error, and
/// keeps the bytes of the frame it cuts, which with what follows the cut
/// are the frames of the bodies still to come.
proof fn lemma_frames_cut(bodies: Seq<Seq<u8>>, m: int, max: usize)
    requires
        forall|i: int| 0 <= i < bodies.len() ==> (#[trigger] bodies[i]).len() <= max,
        0 <= m <= frames_bytes(bodies).len(),
    ensures
        ({
            let (ms, r, e) = drain_frames(frames_bytes(bodies).take(m), max);
            &&& e is None
            &&& ms.len() <= bodies.len()
            &&& ms == bodies.take(ms.len() as int)
            &&& r + frames_bytes(bodies).skip(m) == frames_bytes(bodies.skip(ms.len() as int))
            &&& ms.len() < bodies.len() ==> r.len() < frame_bytes(bodies[ms.len() as int]).len()
            &&& ms.len() == bodies.len() ==> r.len() == 0
        }),
    decreases bodies.len(),
{
    let all = frames_bytes(bodies);
    if bodies.len() == 0 {
        assert(all.take(m) =~= Seq::<u8>::empty());
        assert(bodies.take(0) =~= Seq::<Seq<u8>>::empty());
        assert(bodies.skip(0) =~= bodies);
        assert(Seq::<u8>::empty() + all.skip(m) =~= all);
    } else {
        let b0 = bodies[0];
        let tail = bodies.drop_first();
        let f0 = frame_bytes(b0);
        let l = f0.len() as int;
        assert(all == f0 + frames_bytes(tail));
        if m < l {
            assert(all.take(m) =~= f0.take(m));
            lemma_frame_cut(b0, m, max);
            assert(bodies.take(0) =~= Seq::<Seq<u8>>::empty());
            assert(bodies.skip(0) =~= bodies);
            assert(f0.take(m) + all.skip(m) =~= all);
        } else {
            assert forall|i: int| 0 <= i < tail.len() implies (#[trigger] tail[i]).len() <= max by {
                assert(tail[i] == bodies[i + 1]);
            }
            let cut = frames_bytes(tail).take(m - l);
            assert(all.take(m) =~= f0 + cut);
            law_frame_round_trip(b0, cut, max);
            lemma_frames_cut(tail, m - l, max);
            let (ms2, r2, e2) = drain_frames(cut, max);
            let c = ms2.len() as int;
            assert(bodies.take(1 + c) =~= seq![b0] + tail.take(c));
            assert(bodies.skip(1 + c) =~= tail.skip(c));
            assert(all.skip(m) =~= frames_bytes(tail).skip(m - l));
            if c < tail.len() {
                assert(bodies[1 + c] == tail[c]);
            }
        }
    }
}

proof fn lemma_push_frames(r: Seq<u8>, bodies: Seq<Seq<u8>>, chunks: Seq<Seq<u8>>, max: usize)
    requires
        forall|i: int| 0 <= i < bodies.len() ==> (#[trigger] bodies[i]).len() <= max,
        r + joined(chunks) == frames_bytes(bodies),
        bodies.len() > 0 ==> r.len() < frame_bytes(bodies[0]).len(),
        bodies.len() == 0 ==> r.len() == 0,
    ensures
        push_all(r, chunks, max) == (bodies, Seq::<u8>::empty(), None::<FrameError>),
    decreases chunks.len(),
{
    if chunks.len() == 0 {
        assert(r + joined(chunks) =~= r);
        if bodies.len() > 0 {
            assert(frames_bytes(bodies) == frame_bytes(bodies[0]) + frames_bytes(
                bodies.drop_first(),
            ));
        }
        assert(bodies =~= Seq::<Seq<u8>>::empty());
        assert(r =~= Seq::<u8>::empty());
    } else {
        let all = frames_bytes(bodies);
        let rest = chunks.drop_first();
        let m: int = r.len() as int + chunks[0].len() as int;
        assert(r + joined(chunks) =~= (r + chunks[0]) + joined(rest));
        assert(all.take(m) =~= r + chunks[0]);
        assert(all.skip(m) =~= joined(rest));
        lemma_frames_cut(bodies, m, max);
        let (ms, r1, e1) = drain_frames(r + chunks[0], max);
        let left = bodies.skip(ms.len() as int);
        assert forall|i: int| 0 <= i < left.len() implies (#[trigger] left[i]).len() <= max by {
            assert(left[i] == bodies[i + ms.len()]);
        }
        if left.len() > 0 {
            assert(left[0] == bodies[ms.len() as int]);
        }
        lemma_push_frames(r1, left, rest, max);
        assert(ms + left =~= bodies);
    }
}

/// However the frames of `bodies` are cut into pieces (empty pieces, cuts
/// inside a header or a body, bodies that themselves hold `"\r\n\r\n"`),
/// pushing the pieces one after another into a new decoder succeeds every
/// time and hands out every body exactly once, in stream order, leaving
/// nothing buffered.
pub proof fn law_frames_in_any_pieces(bodies: Seq<Seq<u8>>, chunks: Seq<Seq<u8>>, max: usize)
    requires
        forall|i: int| 0 <= i < bodies.len() ==> (#[trigger] bodies[i]).len() <= max,
        joined(chunks) == frames_bytes(bodies),
    ensures
        push_all(Seq::<u8>::empty(), chunks, max) == (bodies, Seq::<u8>::empty(), None::<
            FrameError,
        >),
{
    assert(Seq::<u8>::empty() + joined(chunks) =~= joined(chunks));
    if bodies.len() > 0 {
        assert(frame_bytes(bodies[0]).len() > 0) by {
            lemma_header_bytes(bodies[0].len());
        }
    }
    lemma_push_frames(Seq::<u8>::empty(), bodies, chunks, max);
}

} // verus!
