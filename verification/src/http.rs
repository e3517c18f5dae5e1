//! The management API's HTTP/1.1 framing: the request head the desktop
//! shell sends and the reading of the response it gets back.

use vstd::prelude::*;
use vstd::string::StringExecFns;
use vstd::utf8::{decode_utf8, valid_utf8};
use crate::number::{decimal, parse_uint, parse_uint_of, push_decimal, IntErrorKind};
use crate::text::{
    chars_of, contains_chars, contains_seq, find_char, find_char_from, is_whitespace, is_ws,
    lemma_find_char, lines_of, text_lines, trim, trim_bounds, views, CharClass, ascii_lower,
    ascii_lower_of,
};

verus! {

broadcast use vstd::string::group_string_axioms;

/// Where UTF-8 decoding failed (the two fields of `std::str::Utf8Error`).
#[derive(Clone, Copy, Debug, PartialEq, Eq, Structural)]
pub struct Utf8Fault {
    /// The length of the longest valid UTF-8 prefix.
    pub valid_up_to: usize,
    /// `None` when the input ends inside a sequence, else the length of the
    /// invalid sequence that starts at `valid_up_to`.
    pub error_len: Option<usize>,
}

/// The length of the longest prefix of `bytes` that is valid UTF-8.
pub open spec fn valid_prefix_len(bytes: Seq<u8>) -> nat
    decreases bytes.len(),
{
    if valid_utf8(bytes) || bytes.len() == 0 {
        bytes.len()
    } else {
        valid_prefix_len(bytes.drop_last())
    }
}

/// What `Utf8Error::error_len` reports for the bytes `std::str::from_utf8`
/// refused.
pub uninterp spec fn utf8_error_len(bytes: Seq<u8>) -> Option<usize>;

/// The fault `std::str::from_utf8` reports for bytes that are not UTF-8.
pub open spec fn utf8_fault(bytes: Seq<u8>) -> Utf8Fault {
    Utf8Fault { valid_up_to: valid_prefix_len(bytes) as usize, error_len: utf8_error_len(bytes) }
}

/// `std::str::from_utf8`: `Ok` exactly when the bytes are valid UTF-8,
/// holding the text they encode. On an error, `Utf8Error::valid_up_to` is
/// documented as the maximum index up to which the input is valid UTF-8
/// (stated here); `Utf8Error::error_len` is named by `utf8_error_len`, of
/// which only the documented fact is stated that `None` (input ended inside
/// a sequence) leaves one to three bytes after `valid_up_to`. The length of
/// an invalid sequence follows the decoder's byte tables, which the
/// documentation does not give.
#[verifier::external_body]
fn str_from_utf8(bytes: &[u8]) -> (r: Result<&str, Utf8Fault>)
    ensures
        match r {
            Ok(s) => valid_utf8(bytes@) && s@ == decode_utf8(bytes@),
            Err(f) => {
                &&& !valid_utf8(bytes@)
                &&& f.valid_up_to == valid_prefix_len(bytes@)
                &&& f.error_len == utf8_error_len(bytes@)
                &&& f.error_len is None ==> 1 <= bytes@.len() - f.valid_up_to <= 3
            },
        },
{
    match std::str::from_utf8(bytes) {
        Ok(s) => Ok(s),
        Err(e) => Err(Utf8Fault { valid_up_to: e.valid_up_to(), error_len: e.error_len() }),
    }
}

/// Position of the first occurrence of `pat` in `hay`
/// (`hay.windows(pat.len()).position(|w| w == pat)`).
pub open spec fn find_bytes(hay: Seq<u8>, pat: Seq<u8>) -> Option<int>
    decreases hay.len(),
{
    if hay.len() < pat.len() {
        None
    } else if hay.take(pat.len() as int) == pat {
        Some(0)
    } else if hay.len() == 0 {
        None
    } else {
        match find_bytes(hay.drop_first(), pat) {
            Some(i) => Some(i + 1),
            None => None,
        }
    }
}

pub open spec fn crlf() -> Seq<u8> {
    seq![13u8, 10u8]
}

pub open spec fn blank_line() -> Seq<u8> {
    seq![13u8, 10u8, 13u8, 10u8]
}

/// `find_bytes` over `hay[from..]`, relative to `from`.
pub fn find_bytes_from(hay: &[u8], from: usize, pat: &[u8]) -> (r: Option<usize>)
    requires
        from <= hay@.len(),
        pat@.len() > 0,
    ensures
        match r {
            Some(i) => find_bytes(hay@.skip(from as int), pat@) == Some(i as int) && from + i
                + pat@.len() <= hay.len(),
            None => find_bytes(hay@.skip(from as int), pat@) is None,
        },
{
    let n = pat.len();
    let mut i = from;
    while i < hay.len()
        invariant
            from <= i <= hay@.len(),
            n == pat@.len(),
            n > 0,
            find_bytes(hay@.skip(from as int), pat@) == match find_bytes(
                hay@.skip(i as int),
                pat@,
            ) {
                Some(k) => Some(k + (i - from)),
                None => None::<int>,
            },
        decreases hay@.len() - i,
    {
        let ghost rest = hay@.skip(i as int);
        if hay.len() - i < n {
            return None;
        }
        let mut j: usize = 0;
        let mut same = true;
        while j < n
            invariant
                i + n <= hay.len(),
                n == pat@.len(),
                j <= n,
                same == forall|m: int| 0 <= m < j ==> hay@[i + m] == pat@[m],
            decreases n - j,
        {
            if hay[i + j] != pat[j] {
                same = false;
            }
            j = j + 1;
        }
        if same {
            assert(rest.take(n as int) =~= pat@);
            return Some(i - from);
        }
        proof {
            let m = choose|m: int| 0 <= m < n && hay@[i + m] != pat@[m];
            assert(rest.take(n as int)[m] != pat@[m]);
            assert(rest.drop_first() == hay@.skip(i + 1));
        }
        i = i + 1;
    }
    assert(hay@.skip(i as int).len() == 0);
    None
}

/// The words of `s` (`str::split_whitespace`).
pub open spec fn words(s: Seq<char>) -> Seq<Seq<char>>
    decreases s.len(),
{
    if s.len() == 0 {
        seq![]
    } else {
        let w = words(s.drop_last());
        let c = s.last();
        if is_ws(c) {
            w
        } else if s.len() >= 2 && !is_ws(s[s.len() - 2]) {
            w.update(w.len() - 1, w.last().push(c))
        } else {
            w.push(seq![c])
        }
    }
}

fn words_of(s: &[char]) -> (r: Vec<Vec<char>>)
    ensures
        views(r@) == words(s@),
{
    let mut r: Vec<Vec<char>> = Vec::new();
    let mut i: usize = 0;
    assert(s@.take(0) == Seq::<char>::empty());
    while i < s.len()
        invariant
            i <= s@.len(),
            views(r@) == words(s@.take(i as int)),
            i > 0 && !is_ws(s@[i - 1]) ==> r@.len() >= 1,
        decreases s@.len() - i,
    {
        let c = s[i];
        let ghost t = s@.take(i + 1);
        assert(t.drop_last() == s@.take(i as int));
        assert(t.last() == c);
        proof {
            if t.len() >= 2 {
                assert(t[t.len() - 2] == s@[i - 1]);
            }
        }
        let ghost before = views(r@);
        if is_whitespace(c) {
        } else if i > 0 && !is_whitespace(s[i - 1]) {
            let last = r.len() - 1;
            let mut w = r.remove(last);
            w.push(c);
            r.push(w);
            assert(views(r@) =~= before.update(before.len() - 1, before.last().push(c)));
        } else {
            let mut w: Vec<char> = Vec::new();
            w.push(c);
            r.push(w);
            assert(views(r@) =~= before.push(seq![c]));
        }
        i = i + 1;
    }
    assert(s@.take(s@.len() as int) == s@);
    r
}

/// The status code of a status line: its second word as a `u16`.
pub open spec fn status_of(line: Seq<char>) -> Option<nat> {
    let w = words(line);
    if w.len() < 2 {
        None
    } else {
        match parse_uint(w[1], 10, 65535) {
            Ok(v) => Some(v),
            Err(_) => None,
        }
    }
}

/// Why a management response could not be used.
pub enum Fault {
    MalformedResponse,
    HeaderNotUtf8(Utf8Fault),
    MissingStatusLine,
    InvalidStatus,
    ChunkLineMissing,
    ChunkSizeNotUtf8(Utf8Fault),
    ChunkSizeInvalid(IntErrorKind),
    ChunkTruncated,
    Status(nat, Seq<u8>),
}

/// Why a management response could not be used.
#[derive(Debug)]
pub enum HttpError {
    /// No empty line ends the header block.
    MalformedResponse,
    /// The header block is not UTF-8.
    HeaderNotUtf8(Utf8Fault),
    /// The header block is empty.
    MissingStatusLine,
    /// The status line has no numeric status code.
    InvalidStatus,
    /// A chunk size line does not end in `\r\n`.
    ChunkLineMissing,
    /// A chunk size line is not UTF-8.
    ChunkSizeNotUtf8(Utf8Fault),
    /// A chunk size is not a hexadecimal `usize`.
    ChunkSizeInvalid(IntErrorKind),
    /// A chunk is longer than what follows its size line.
    ChunkTruncated,
    /// The status is not 2xx; the (decoded) body is kept.
    Status(u16, Vec<u8>),
}

pub open spec fn fault_of(e: HttpError) -> Fault {
    match e {
        HttpError::MalformedResponse => Fault::MalformedResponse,
        HttpError::HeaderNotUtf8(f) => Fault::HeaderNotUtf8(f),
        HttpError::MissingStatusLine => Fault::MissingStatusLine,
        HttpError::InvalidStatus => Fault::InvalidStatus,
        HttpError::ChunkLineMissing => Fault::ChunkLineMissing,
        HttpError::ChunkSizeNotUtf8(f) => Fault::ChunkSizeNotUtf8(f),
        HttpError::ChunkSizeInvalid(k) => Fault::ChunkSizeInvalid(k),
        HttpError::ChunkTruncated => Fault::ChunkTruncated,
        HttpError::Status(s, b) => Fault::Status(s as nat, b@),
    }
}

/// The view of a result of a body decoding.
pub open spec fn body_result(r: Result<Vec<u8>, HttpError>) -> Result<Seq<u8>, Fault> {
    match r {
        Ok(v) => Ok(v@),
        Err(e) => Err(fault_of(e)),
    }
}

/// The size a chunk size line announces: the text before any `;`,
/// trimmed, read as hexadecimal.
pub open spec fn chunk_size(line: Seq<u8>) -> Result<nat, Fault> {
    if !valid_utf8(line) {
        Err(Fault::ChunkSizeNotUtf8(utf8_fault(line)))
    } else {
        let t = decode_utf8(line);
        let head = match find_char(t, ';') {
            Some(i) => t.take(i),
            None => t,
        };
        match parse_uint(trim(head), 16, usize::MAX as nat) {
            Ok(v) => Ok(v),
            Err(k) => Err(Fault::ChunkSizeInvalid(k)),
        }
    }
}

/// Chunked transfer coding read from `cursor` on, after `out` was read:
/// size line, data, an optional `\r\n`; a zero size or the end of the
/// body ends it.
pub open spec fn dechunk(body: Seq<u8>, cursor: int, out: Seq<u8>) -> Result<Seq<u8>, Fault>
    decreases body.len() - cursor,
{
    if cursor < 0 || cursor > body.len() {
        Err(Fault::ChunkLineMissing)
    } else {
        match find_bytes(body.skip(cursor), crlf()) {
            None => Err(Fault::ChunkLineMissing),
            Some(le) => match chunk_size(body.subrange(cursor, cursor + le)) {
                Err(f) => Err(f),
                Ok(size) => {
                    let data = cursor + le + 2;
                    if le < 0 {
                        Err(Fault::ChunkLineMissing)
                    } else if size == 0 {
                        Ok(out)
                    } else if data + size > body.len() {
                        Err(Fault::ChunkTruncated)
                    } else {
                        let out2 = out + body.subrange(data, data + size);
                        let after = data + size;
                        let next = if after + 2 <= body.len() && body.subrange(after, after + 2)
                            == crlf() {
                            after + 2
                        } else {
                            after
                        };
                        if next >= body.len() {
                            Ok(out2)
                        } else {
                            dechunk(body, next, out2)
                        }
                    }
                },
            },
        }
    }
}

proof fn lemma_find_bytes_bound(hay: Seq<u8>, pat: Seq<u8>)
    ensures
        find_bytes(hay, pat) matches Some(i) ==> 0 <= i && i + pat.len() <= hay.len(),
    decreases hay.len(),
{
    if hay.len() >= pat.len() && hay.take(pat.len() as int) != pat && hay.len() > 0 {
        lemma_find_bytes_bound(hay.drop_first(), pat);
    }
}

/// The size announced by `body[from..to]`.
fn chunk_size_of(body: &[u8], from: usize, to: usize) -> (r: Result<usize, HttpError>)
    requires
        from <= to <= body@.len(),
    ensures
        match r {
            Ok(v) => chunk_size(body@.subrange(from as int, to as int)) == Ok::<nat, Fault>(
                v as nat,
            ),
            Err(e) => chunk_size(body@.subrange(from as int, to as int)) == Err::<nat, Fault>(
                fault_of(e),
            ),
        },
{
    let line = &body[from..to];
    assert(line@ == body@.subrange(from as int, to as int));
    let text = match str_from_utf8(line) {
        Ok(t) => t,
        Err(e) => {
            return Err(HttpError::ChunkSizeNotUtf8(e));
        },
    };
    let t = chars_of(text);
    assert(t@.skip(0) == t@);
    let end = match find_char_from(t.as_slice(), 0, ';') {
        Some(i) => i,
        None => t.len(),
    };
    proof {
        lemma_find_char(t@, ';');
    }
    let head = &t.as_slice()[0..end];
    assert(head@ == t@.take(end as int));
    let (a, b) = trim_bounds(head, &CharClass::Whitespace);
    match parse_uint_of(head, a, b, 16, usize::MAX as u64) {
        Ok(v) => Ok(v as usize),
        Err(k) => Err(HttpError::ChunkSizeInvalid(k)),
    }
}

/// Decodes a body sent with chunked transfer coding.
pub fn decode_chunked_body(body: &[u8]) -> (r: Result<Vec<u8>, HttpError>)
    ensures
        body_result(r) == dechunk(body@, 0, Seq::empty()),
{
    let mut output: Vec<u8> = Vec::new();
    let mut cursor: usize = 0;
    let sep: [u8; 2] = [13u8, 10u8];
    assert(sep@ == crlf());
    loop
        invariant
            cursor < body@.len() || cursor == 0,
            cursor <= body@.len(),
            sep@ == crlf(),
            dechunk(body@, 0, Seq::empty()) == dechunk(body@, cursor as int, output@),
        decreases body@.len() - cursor,
    {
        let line_end = match find_bytes_from(body, cursor, sep.as_slice()) {
            Some(i) => i,
            None => {
                return Err(HttpError::ChunkLineMissing);
            },
        };
        let size = match chunk_size_of(body, cursor, cursor + line_end) {
            Ok(s) => s,
            Err(e) => {
                return Err(e);
            },
        };
        let data = cursor + line_end + 2;
        if size == 0 {
            return Ok(output);
        }
        if size > body.len() - data {
            return Err(HttpError::ChunkTruncated);
        }
        let ghost before = output@;
        output.extend_from_slice(&body[data..data + size]);
        assert(output@ =~= before + body@.subrange(data as int, data + size));
        let after = data + size;
        let next = if body.len() - after >= 2 && body[after] == 13u8 && body[after + 1] == 10u8 {
            assert(body@.subrange(after as int, after + 2) =~= crlf());
            after + 2
        } else {
            proof {
                if after + 2 <= body@.len() && body@.subrange(after as int, after + 2) == crlf() {
                    assert(body@.subrange(after as int, after + 2)[0] == body@[after as int]);
                    assert(body@.subrange(after as int, after + 2)[1] == body@[after + 1]);
                }
            }
            after
        };
        if next >= body.len() {
            return Ok(output);
        }
        cursor = next;
    }
}

/// What `parse_http_response` makes of a whole response: the body (decoded
/// when the header names chunked transfer coding) for a 2xx status.
pub open spec fn response_body(resp: Seq<u8>) -> Result<Seq<u8>, Fault> {
    match find_bytes(resp, blank_line()) {
        None => Err(Fault::MalformedResponse),
        Some(h) => {
            let head = resp.take(h);
            if !valid_utf8(head) {
                Err(Fault::HeaderNotUtf8(utf8_fault(head)))
            } else {
                let text = decode_utf8(head);
                let lines = text_lines(text);
                if lines.len() == 0 {
                    Err(Fault::MissingStatusLine)
                } else {
                    match status_of(lines[0]) {
                        None => Err(Fault::InvalidStatus),
                        Some(st) => {
                            let body = resp.skip(h + 4);
                            let decoded = if contains_seq(
                                ascii_lower(text),
                                "transfer-encoding: chunked"@,
                            ) {
                                dechunk(body, 0, Seq::empty())
                            } else {
                                Ok(body)
                            };
                            match decoded {
                                Err(f) => Err(f),
                                Ok(d) => if 200 <= st < 300 {
                                    Ok(d)
                                } else {
                                    Err(Fault::Status(st, d))
                                },
                            }
                        },
                    }
                }
            }
        },
    }
}

/// The body of a management API response, or why there is none.
pub fn parse_http_response(response: &[u8]) -> (r: Result<Vec<u8>, HttpError>)
    ensures
        body_result(r) == response_body(response@),
{
    let sep: [u8; 4] = [13u8, 10u8, 13u8, 10u8];
    assert(sep@ == blank_line());
    assert(response@.skip(0) == response@);
    let header_end = match find_bytes_from(response, 0, sep.as_slice()) {
        Some(h) => h,
        None => {
            return Err(HttpError::MalformedResponse);
        },
    };
    let head = &response[0..header_end];
    assert(head@ == response@.take(header_end as int));
    let header_text = match str_from_utf8(head) {
        Ok(t) => t,
        Err(e) => {
            return Err(HttpError::HeaderNotUtf8(e));
        },
    };
    let text = chars_of(header_text);
    let lines = lines_of(text.as_slice());
    if lines.len() == 0 {
        return Err(HttpError::MissingStatusLine);
    }
    assert(views(lines@)[0] == lines@[0]@);
    let words = words_of(lines[0].as_slice());
    if words.len() < 2 {
        return Err(HttpError::InvalidStatus);
    }
    assert(views(words@)[1] == words@[1]@);
    assert(words@[1]@.subrange(0, words@[1]@.len() as int) == words@[1]@);
    let status = match parse_uint_of(words[1].as_slice(), 0, words[1].len(), 10, 65535) {
        Ok(v) => v as u16,
        Err(_) => {
            return Err(HttpError::InvalidStatus);
        },
    };
    let body = &response[header_end + 4..response.len()];
    assert(body@ == response@.skip(header_end + 4));
    let lower = ascii_lower_of(text.as_slice());
    let needle = chars_of("transfer-encoding: chunked");
    let decoded = if contains_chars(lower.as_slice(), needle.as_slice()) {
        match decode_chunked_body(body) {
            Ok(d) => d,
            Err(e) => {
                return Err(e);
            },
        }
    } else {
        vstd::slice::slice_to_vec(body)
    };
    if 200 <= status && status < 300 {
        Ok(decoded)
    } else {
        Err(HttpError::Status(status, decoded))
    }
}

/// Why no management request can be built.
#[derive(Clone, Copy, Debug, PartialEq, Eq, Structural)]
pub enum RequestError {
    /// The management key holds a `\r` or `\n`.
    KeyHasLineBreak,
}

/// The head of a management API request: request line, headers, and the
/// empty line; content headers only for a non-empty body.
pub open spec fn request_head(
    port: nat,
    key: Seq<char>,
    method: Seq<char>,
    path: Seq<char>,
    body_len: nat,
) -> Seq<char> {
    let base = method + " "@ + path + " HTTP/1.1\r\nHost: 127.0.0.1:"@ + decimal(port)
        + "\r\nAuthorization: Bearer "@ + key + "\r\nAccept: application/json\r\nConnection: close\r\n"@;
    let content = if body_len > 0 {
        "Content-Type: application/json\r\nContent-Length: "@ + decimal(body_len) + "\r\n"@
    } else {
        Seq::empty()
    };
    base + content + "\r\n"@
}

/// The request head for the local management API, refused for a key with a line break.
pub fn management_request_head(
    port: u16,
    management_key: &str,
    method: &str,
    path: &str,
    body_len: usize,
) -> (r: Result<String, RequestError>)
    ensures
        match r {
            Ok(h) => find_char(management_key@, '\r') is None && find_char(management_key@, '\n')
                is None && h@ == request_head(
                port as nat,
                management_key@,
                method@,
                path@,
                body_len as nat,
            ),
            Err(_) => find_char(management_key@, '\r') is Some || find_char(management_key@, '\n')
                is Some,
        },
{
    let key = chars_of(management_key);
    assert(key@.skip(0) == key@);
    if find_char_from(key.as_slice(), 0, '\r').is_some() || find_char_from(key.as_slice(), 0, '\n').is_some() {
        return Err(RequestError::KeyHasLineBreak);
    }
    let mut request = String::from_str(method);
    request.append(" ");
    request.append(path);
    request.append(" HTTP/1.1\r\nHost: 127.0.0.1:");
    push_decimal(&mut request, port as u64);
    request.append("\r\nAuthorization: Bearer ");
    request.append(management_key);
    request.append("\r\nAccept: application/json\r\nConnection: close\r\n");
    let ghost base = request@;
    if body_len > 0 {
        request.append("Content-Type: application/json\r\nContent-Length: ");
        push_decimal(&mut request, body_len as u64);
        request.append("\r\n");
    }
    request.append("\r\n");
    Ok(request)
}

} // verus!
