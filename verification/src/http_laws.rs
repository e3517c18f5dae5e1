//! What reading chunked transfer coding, alone and in a response, gives
//! back; which statuses give a body; what a request head announces.

use vstd::prelude::*;
use vstd::utf8::{
    decode_utf8, encode_utf8, encode_utf8_decode_utf8, encode_utf8_valid_utf8, is_ascii_chars,
    is_ascii_chars_encode_utf8, valid_utf8,
};
use crate::http::{
    words, blank_line, chunk_size, crlf, dechunk, find_bytes, request_head, response_body, status_of, Fault,
};
use crate::number::{decimal, lemma_decimal_digits, digit_value, digits_value, lemma_parse_decimal, parse_uint, IntErrorKind};
use crate::text::{
    is_ws, ascii_lower, contains_seq, find_char, lemma_find_char, lemma_lead_in_at, lemma_trail_in_at,
    text_lines, trim, CharClass,
};

verus! {

/// Lower-case hexadecimal digit for `d < 16`.
pub open spec fn hex_digit(d: nat) -> char {
    if d < 10 {
        (48 + d) as char
    } else {
        (87 + d) as char
    }
}

/// Lower-case hexadecimal text of `n`.
pub open spec fn hex_text(n: nat) -> Seq<char>
    decreases n,
{
    if n < 16 {
        seq![hex_digit(n)]
    } else {
        hex_text(n / 16).push(hex_digit(n % 16))
    }
}

/// One chunk: its size in hexadecimal, `\r\n`, the data, `\r\n`.
pub open spec fn chunk_bytes(data: Seq<u8>) -> Seq<u8> {
    encode_utf8(hex_text(data.len())) + crlf() + data + crlf()
}

/// A body in chunked transfer coding: the chunks, then `0\r\n\r\n`.
pub open spec fn chunked_bytes(chunks: Seq<Seq<u8>>) -> Seq<u8>
    decreases chunks.len(),
{
    if chunks.len() == 0 {
        seq![48u8] + crlf() + crlf()
    } else {
        chunk_bytes(chunks[0]) + chunked_bytes(chunks.drop_first())
    }
}

/// The chunks' data, one after the other.
pub open spec fn flatten(chunks: Seq<Seq<u8>>) -> Seq<u8>
    decreases chunks.len(),
{
    if chunks.len() == 0 {
        seq![]
    } else {
        chunks[0] + flatten(chunks.drop_first())
    }
}

proof fn lemma_digits_snoc(s: Seq<char>, c: char, radix: nat, max: nat, acc: nat)
    ensures
        digits_value(s.push(c), radix, max, acc) == match digits_value(s, radix, max, acc) {
            Ok(v) => match digit_value(c, radix) {
                None => Err(IntErrorKind::InvalidDigit),
                Some(x) => if v * radix + x > max {
                    Err(IntErrorKind::PosOverflow)
                } else {
                    Ok(v * radix + x)
                },
            },
            Err(e) => Err(e),
        },
    decreases s.len(),
{
    reveal_with_fuel(digits_value, 2);
    if s.len() == 0 {
        assert(s.push(c).drop_first() == Seq::<char>::empty());
    } else {
        assert(s.push(c)[0] == s[0]);
        assert(s.push(c).drop_first() == s.drop_first().push(c));
        match digit_value(s[0], radix) {
            Some(x) => {
                lemma_digits_snoc(s.drop_first(), c, radix, max, acc * radix + x);
            },
            None => {},
        }
    }
}

proof fn lemma_hex_digit(d: nat)
    requires
        d < 16,
    ensures
        digit_value(hex_digit(d), 16) == Some(d),
        hex_digit(d) != '+' && hex_digit(d) != '-' && hex_digit(d) != ';',
        48 <= hex_digit(d) as u32 <= 57 || 97 <= hex_digit(d) as u32 <= 102,
{
    if d < 10 {
        assert(((48 + d) as char) as u32 == 48 + d);
    } else {
        assert(((87 + d) as char) as u32 == 87 + d);
    }
}

proof fn lemma_hex_text_chars(n: nat)
    ensures
        hex_text(n).len() > 0,
        forall|i: int|
            #![trigger hex_text(n)[i]]
            0 <= i < hex_text(n).len() ==> (48 <= hex_text(n)[i] as u32 <= 57 || 97
                <= hex_text(n)[i] as u32 <= 102),
    decreases n,
{
    lemma_hex_digit(n % 16);
    if n >= 16 {
        lemma_hex_text_chars(n / 16);
        assert forall|i: int| 0 <= i < hex_text(n).len() implies (48 <= #[trigger] hex_text(n)[i] as u32
            <= 57 || 97 <= hex_text(n)[i] as u32 <= 102) by {
            reveal_with_fuel(hex_text, 1);
            if i < hex_text(n / 16).len() {
                assert(hex_text(n)[i] == hex_text(n / 16)[i]);
            }
        }
    } else {
        lemma_hex_digit(n);
    }
}

proof fn lemma_parse_hex(n: nat, max: nat)
    requires
        n <= max,
    ensures
        digits_value(hex_text(n), 16, max, 0) == Ok::<nat, IntErrorKind>(n),
    decreases n,
{
    lemma_hex_digit(n % 16);
    if n < 16 {
        lemma_digits_snoc(Seq::empty(), hex_digit(n), 16, max, 0);
        assert(Seq::<char>::empty().push(hex_digit(n)) == hex_text(n));
    } else {
        lemma_parse_hex(n / 16, max);
        lemma_digits_snoc(hex_text(n / 16), hex_digit(n % 16), 16, max, 0);
        assert((n / 16) * 16 + n % 16 == n);
    }
}

proof fn lemma_small_char(c: char)
    requires
        48 <= c as u32 <= 102,
    ensures
        '\0' <= c <= '\u{7f}',
{
}

/// The size line of a chunk reads as the chunk's size.
proof fn lemma_chunk_size_of_hex(n: nat)
    requires
        n <= usize::MAX,
    ensures
        chunk_size(encode_utf8(hex_text(n))) == Ok::<nat, Fault>(n),
        forall|i: int| 0 <= i < encode_utf8(hex_text(n)).len() ==> #[trigger] encode_utf8(hex_text(n))[i] != 13u8,
{
    let t = hex_text(n);
    lemma_hex_text_chars(n);
    assert forall|i: int| 0 <= i < t.len() implies '\0' <= #[trigger] t[i] <= '\u{7f}' by {
        lemma_small_char(t[i]);
    }
    assert(is_ascii_chars(t));
    is_ascii_chars_encode_utf8(t);
    encode_utf8_valid_utf8(t);
    encode_utf8_decode_utf8(t);
    assert forall|i: int| 0 <= i < encode_utf8(t).len() implies #[trigger] encode_utf8(t)[i] != 13u8 by {
        assert(t[i] as u8 == encode_utf8(t)[i]);
    }
    lemma_find_char(t, ';');
    if let Some(i) = find_char(t, ';') {
        assert(t[i] as u32 != 59);
    }
    assert(t[0] as u32 >= 48);
    lemma_lead_in_at(t, CharClass::Whitespace, 0);
    lemma_trail_in_at(t, CharClass::Whitespace, 0);
    assert(t.skip(0) == t && t.take(t.len() as int) == t);
    lemma_parse_hex(n, usize::MAX as nat);
    lemma_hex_digit(n % 16);
    if n >= 16 {
        assert(t[0] == hex_text(n / 16)[0]);
    }
    assert(valid_utf8(encode_utf8(t)));
    assert(decode_utf8(encode_utf8(t)) == t);
    assert(find_char(t, ';') is None);
    assert(trim(t) == t);
    assert(t[0] != '+' && t[0] != '-');
    assert(parse_uint(t, 16, usize::MAX as nat) == Ok::<nat, IntErrorKind>(n));
}

/// The first `\r\n` follows a prefix without `\r`.
proof fn lemma_find_crlf(h: Seq<u8>, rest: Seq<u8>)
    requires
        forall|i: int| 0 <= i < h.len() ==> #[trigger] h[i] != 13u8,
    ensures
        find_bytes(h + crlf() + rest, crlf()) == Some(h.len() as int),
    decreases h.len(),
{
    let hay = h + crlf() + rest;
    if h.len() == 0 {
        assert(hay.take(2) == crlf());
    } else {
        assert(hay[0] == h[0]);
        assert(hay.take(2) != crlf()) by {
            assert(hay.take(2)[0] == h[0]);
        }
        let t = h.drop_first();
        assert forall|i: int| 0 <= i < t.len() implies #[trigger] t[i] != 13u8 by {
            assert(t[i] == h[i + 1]);
        }
        lemma_find_crlf(t, rest);
        assert(hay.drop_first() == t + crlf() + rest);
    }
}

proof fn lemma_chunked_len(chunks: Seq<Seq<u8>>)
    ensures
        chunked_bytes(chunks).len() >= 5,
    decreases chunks.len(),
{
    if chunks.len() > 0 {
        lemma_chunked_len(chunks.drop_first());
    }
}

/// Reading chunked coding from `cursor` on, where the remaining body is an
/// encoding of `chunks`.
proof fn lemma_dechunk_from(body: Seq<u8>, cursor: int, out: Seq<u8>, chunks: Seq<Seq<u8>>)
    requires
        0 <= cursor <= body.len(),
        body.skip(cursor) == chunked_bytes(chunks),
        forall|j: int| 0 <= j < chunks.len() ==> 0 < #[trigger] chunks[j].len() <= usize::MAX,
    ensures
        dechunk(body, cursor, out) == Ok::<Seq<u8>, Fault>(out + flatten(chunks)),
    decreases chunks.len(),
{
    let rest = body.skip(cursor);
    if chunks.len() == 0 {
        let zero = seq![48u8];
        lemma_find_crlf(zero, crlf());
        assert(rest == zero + crlf() + crlf());
        assert(body.subrange(cursor, cursor + 1) == zero);
        lemma_chunk_size_of_hex(0);
        assert(hex_text(0) == seq![hex_digit(0)]);
        assert(hex_digit(0) == '0');
        let z = seq!['0'];
        assert(is_ascii_chars(z));
        is_ascii_chars_encode_utf8(z);
        assert(encode_utf8(z) =~= zero);
        assert(out + flatten(chunks) == out);
    } else {
        let c = chunks[0];
        let n = c.len();
        let h = encode_utf8(hex_text(n));
        let tail = chunks.drop_first();
        lemma_chunk_size_of_hex(n);
        lemma_chunked_len(tail);
        assert(rest == h + crlf() + (c + crlf() + chunked_bytes(tail)));
        lemma_find_crlf(h, c + crlf() + chunked_bytes(tail));
        let hl = h.len() as int;
        assert(body.subrange(cursor, cursor + hl) =~= rest.subrange(0, hl));
        assert(rest.subrange(0, hl) =~= h);
        let data = cursor + hl + 2;
        let after = data + n;
        assert(body.subrange(data, data + n) =~= rest.subrange(hl + 2, hl + 2 + n));
        assert(rest.subrange(hl + 2, hl + 2 + n) =~= c);
        assert(body.subrange(after, after + 2) =~= rest.subrange(hl + 2 + n, hl + 4 + n));
        assert(rest.subrange(hl + 2 + n, hl + 4 + n) =~= crlf());
        assert(body.skip(after + 2) =~= rest.skip(hl + 4 + n));
        assert(rest.skip(hl + 4 + n) =~= chunked_bytes(tail));
        assert forall|j: int| 0 <= j < tail.len() implies 0 < #[trigger] tail[j].len() <= usize::MAX by {
            assert(tail[j] == chunks[j + 1]);
        }
        lemma_dechunk_from(body, after + 2, out + c, tail);
        assert(out + c + flatten(tail) == out + flatten(chunks));
    }
}

/// Decoding a body in chunked transfer coding gives the chunks' data.
pub proof fn lemma_dechunk_encoded(chunks: Seq<Seq<u8>>)
    requires
        forall|j: int| 0 <= j < chunks.len() ==> 0 < #[trigger] chunks[j].len() <= usize::MAX,
    ensures
        dechunk(chunked_bytes(chunks), 0, Seq::empty()) == Ok::<Seq<u8>, Fault>(flatten(chunks)),
{
    let body = chunked_bytes(chunks);
    assert(body.skip(0) == body);
    lemma_dechunk_from(body, 0, Seq::empty(), chunks);
    assert(Seq::<u8>::empty() + flatten(chunks) == flatten(chunks));
}

/// A match found in a prefix stays the first match with more text after it.
proof fn lemma_find_bytes_prefix(x: Seq<u8>, y: Seq<u8>, p: Seq<u8>)
    requires
        find_bytes(x, p) is Some,
    ensures
        find_bytes(x + y, p) == find_bytes(x, p),
    decreases x.len(),
{
    assert((x + y).take(p.len() as int) == x.take(p.len() as int));
    if x.take(p.len() as int) != p && x.len() > 0 {
        assert((x + y).drop_first() == x.drop_first() + y);
        lemma_find_bytes_prefix(x.drop_first(), y, p);
    }
}

/// The body of a 2xx response that announces chunked transfer coding is
/// the data of its chunks.
pub proof fn lemma_chunked_response_body(head: Seq<u8>, chunks: Seq<Seq<u8>>)
    requires
        find_bytes(head + blank_line(), blank_line()) == Some(head.len() as int),
        valid_utf8(head),
        text_lines(decode_utf8(head)).len() > 0,
        status_of(text_lines(decode_utf8(head))[0]) matches Some(st) && 200 <= st < 300,
        contains_seq(ascii_lower(decode_utf8(head)), "transfer-encoding: chunked"@),
        forall|j: int| 0 <= j < chunks.len() ==> 0 < #[trigger] chunks[j].len() <= usize::MAX,
    ensures
        response_body(head + blank_line() + chunked_bytes(chunks)) == Ok::<Seq<u8>, Fault>(
            flatten(chunks),
        ),
{
    let resp = head + blank_line() + chunked_bytes(chunks);
    lemma_find_bytes_prefix(head + blank_line(), chunked_bytes(chunks), blank_line());
    assert(resp.take(head.len() as int) =~= head);
    assert(resp.skip(head.len() + 4 as int) =~= chunked_bytes(chunks));
    lemma_dechunk_encoded(chunks);
}

/// Decoding chunks never fails for a status.
proof fn lemma_dechunk_no_status(body: Seq<u8>, cursor: int, out: Seq<u8>)
    ensures
        !(dechunk(body, cursor, out) is Err && dechunk(body, cursor, out)->Err_0 is Status),
    decreases body.len() - cursor,
{
    if 0 <= cursor <= body.len() {
        if let Some(le) = find_bytes(body.skip(cursor), crlf()) {
            if let Ok(size) = chunk_size(body.subrange(cursor, cursor + le)) {
                let data = cursor + le + 2;
                if le >= 0 && size != 0 && data + size <= body.len() {
                    let out2 = out + body.subrange(data, data + size);
                    let after = data + size;
                    let next = if after + 2 <= body.len() && body.subrange(after, after + 2) == crlf() {
                        after + 2
                    } else {
                        after
                    };
                    if next < body.len() {
                        lemma_dechunk_no_status(body, next, out2);
                    }
                }
            }
        }
    }
}

/// Only a 2xx status gives a body: when the status line of a response
/// reads status `st`, the response is used only if `200 <= st < 300`; for
/// any other status it is refused, and a refusal for its status names `st`.
pub proof fn lemma_only_success_gives_body(resp: Seq<u8>, h: int, st: nat)
    requires
        find_bytes(resp, blank_line()) == Some(h),
        valid_utf8(resp.take(h)),
        text_lines(decode_utf8(resp.take(h))).len() > 0,
        status_of(text_lines(decode_utf8(resp.take(h)))[0]) == Some(st),
    ensures
        response_body(resp) is Ok ==> 200 <= st < 300,
        !(200 <= st < 300) ==> response_body(resp) is Err,
        response_body(resp) matches Err(Fault::Status(s, _)) ==> s == st && !(200 <= st < 300),
{
    lemma_dechunk_no_status(resp.skip(h + 4), 0, Seq::empty());
}

/// `head` holds `Content-Length: ` at `i`, then up to the `\r` at `j` text
/// that reads as the length `n`.
pub open spec fn length_line_at(head: Seq<char>, i: int, j: int, n: nat) -> bool {
    &&& 0 <= i
    &&& i + 16 <= j < head.len()
    &&& head.subrange(i, i + 16) == "Content-Length: "@
    &&& head[j] == '\r'
    &&& parse_uint(head.subrange(i + 16, j), 10, usize::MAX as nat) == Ok::<nat, IntErrorKind>(n)
}

/// A request with a body announces its length: the head holds
/// `Content-Length: ` followed, up to the next `\r`, by text that reads
/// back as exactly the body length, whatever that length is.
pub proof fn lemma_content_length_reads_back(
    port: u16,
    key: Seq<char>,
    method: Seq<char>,
    path: Seq<char>,
    body_len: usize,
)
    requires
        body_len > 0,
    ensures
        exists|i: int, j: int|
            #[trigger] length_line_at(
                request_head(port as nat, key, method, path, body_len as nat),
                i,
                j,
                body_len as nat,
            ),
{
    reveal_strlit("Content-Length: ");
    reveal_strlit("Content-Type: application/json\r\nContent-Length: ");
    reveal_strlit("\r\n");
    let head = request_head(port as nat, key, method, path, body_len as nat);
    let base = method + " "@ + path + " HTTP/1.1\r\nHost: 127.0.0.1:"@ + decimal(port as nat)
        + "\r\nAuthorization: Bearer "@ + key + "\r\nAccept: application/json\r\nConnection: close\r\n"@;
    let lead = "Content-Type: application/json\r\nContent-Length: "@;
    let digits = decimal(body_len as nat);
    assert(head == base + (lead + digits + "\r\n"@) + "\r\n"@);
    lemma_parse_decimal(body_len as nat, usize::MAX as nat);
    let i: int = base.len() as int + 32;
    let j: int = i + 16 + digits.len();
    assert(head.subrange(i, i + 16) =~= "Content-Length: "@);
    assert(head.subrange(i + 16, j) =~= digits);
    assert(head[j] == '\r');
    assert(length_line_at(head, i, j, body_len as nat));
}

/// A 2xx response without chunked transfer coding gives its body as it
/// stands after the empty line.
pub proof fn lemma_plain_response_body(head: Seq<u8>, body: Seq<u8>)
    requires
        find_bytes(head + blank_line(), blank_line()) == Some(head.len() as int),
        valid_utf8(head),
        text_lines(decode_utf8(head)).len() > 0,
        status_of(text_lines(decode_utf8(head))[0]) matches Some(st) && 200 <= st < 300,
        !contains_seq(ascii_lower(decode_utf8(head)), "transfer-encoding: chunked"@),
    ensures
        response_body(head + blank_line() + body) == Ok::<Seq<u8>, Fault>(body),
{
    let resp = head + blank_line() + body;
    lemma_find_bytes_prefix(head + blank_line(), body, blank_line());
    assert(resp.take(head.len() as int) =~= head);
    assert(resp.skip(head.len() + 4 as int) =~= body);
}

/// A text ending in a non-space character has a last word.
proof fn lemma_words_nonempty(s: Seq<char>)
    requires
        s.len() > 0,
        !is_ws(s.last()),
    ensures
        words(s).len() > 0,
    decreases s.len(),
{
    if s.len() >= 2 && !is_ws(s[s.len() - 2]) {
        assert(s.drop_last().last() == s[s.len() - 2]);
        lemma_words_nonempty(s.drop_last());
    }
}

/// Words on both sides of a space are the words of each side.
proof fn lemma_words_concat(x: Seq<char>, y: Seq<char>)
    ensures
        words(x + seq![' '] + y) == words(x) + words(y),
    decreases y.len(),
{
    let s = x + seq![' '] + y;
    if y.len() == 0 {
        assert(s =~= x.push(' '));
        assert(s.drop_last() =~= x);
        assert(words(y) =~= Seq::<Seq<char>>::empty());
        assert(words(x) + words(y) =~= words(x));
    } else {
        let yd = y.drop_last();
        let c = y.last();
        assert(s.drop_last() =~= x + seq![' '] + yd);
        assert(s.last() == c);
        lemma_words_concat(x, yd);
        let wx = words(x);
        let wy = words(yd);
        if is_ws(c) {
        } else if y.len() >= 2 && !is_ws(y[y.len() - 2]) {
            assert(s[s.len() - 2] == y[y.len() - 2]);
            assert(yd.last() == y[y.len() - 2]);
            lemma_words_nonempty(yd);
            assert((wx + wy).update((wx + wy).len() - 1, (wx + wy).last().push(c)) =~= wx + wy.update(
                wy.len() - 1,
                wy.last().push(c),
            ));
        } else {
            if y.len() >= 2 {
                assert(s[s.len() - 2] == y[y.len() - 2]);
            } else {
                assert(s[s.len() - 2] == ' ');
                assert(yd.len() == 0);
                assert(words(yd) =~= Seq::<Seq<char>>::empty());
            }
            assert((wx + wy).push(seq![c]) =~= wx + wy.push(seq![c]));
        }
    }
}

/// A run of non-space characters is one word.
proof fn lemma_words_single(d: Seq<char>)
    requires
        d.len() > 0,
        forall|i: int| 0 <= i < d.len() ==> !is_ws(#[trigger] d[i]),
    ensures
        words(d) == seq![d],
    decreases d.len(),
{
    let c = d.last();
    assert(!is_ws(d[d.len() - 1]));
    if d.len() == 1 {
        assert(d.drop_last() =~= Seq::<char>::empty());
        assert(words(d.drop_last()) =~= Seq::<Seq<char>>::empty());
        assert(d =~= seq![c]);
    } else {
        let e = d.drop_last();
        assert forall|i: int| 0 <= i < e.len() implies !is_ws(#[trigger] e[i]) by {
            assert(e[i] == d[i]);
        }
        lemma_words_single(e);
        assert(!is_ws(d[d.len() - 2]));
        assert(e.push(c) =~= d);
    }
}

/// A status line `HTTP/1.1 <code> <reason>` reads status `<code>`,
/// whatever the reason phrase.
pub proof fn lemma_status_line_reads(code: u16, reason: Seq<char>)
    ensures
        status_of("HTTP/1.1"@ + seq![' '] + decimal(code as nat) + seq![' '] + reason) == Some(code as nat),
{
    reveal_strlit("HTTP/1.1");
    let v = "HTTP/1.1"@;
    let d = decimal(code as nat);
    lemma_decimal_digits(code as nat);
    assert forall|i: int| 0 <= i < d.len() implies !is_ws(#[trigger] d[i]) by {
        assert(48 <= d[i] as u32 <= 57);
    }
    assert forall|i: int| 0 <= i < v.len() implies !is_ws(#[trigger] v[i]) by {}
    lemma_parse_decimal(code as nat, 65535);
    lemma_words_single(v);
    lemma_words_single(d);
    lemma_words_concat(d, reason);
    lemma_words_concat(v, d + seq![' '] + reason);
    assert(v + seq![' '] + d + seq![' '] + reason =~= v + seq![' '] + (d + seq![' '] + reason));
    let w = words(v + seq![' '] + (d + seq![' '] + reason));
    assert(w == seq![v] + (seq![d] + words(reason)));
    assert(w[1] == d);
}

/// A request head starts with the request line for the method and path,
/// then names the local host with the port, which reads back from the head,
/// and it ends with the empty line.
pub proof fn lemma_request_head_start(port: u16, key: Seq<char>, method: Seq<char>, path: Seq<char>, body_len: nat)
    ensures
        ({
            let head = request_head(port as nat, key, method, path, body_len);
            let line = method + " "@ + path + " HTTP/1.1\r\n"@;
            let host = "Host: 127.0.0.1:"@;
            let d: int = line.len() as int + host.len() as int;
            &&& head.take(line.len() as int) == line
            &&& head.subrange(line.len() as int, d) == host
            &&& parse_uint(head.subrange(d, d + decimal(port as nat).len() as int), 10, 65535) == Ok::<
                nat,
                IntErrorKind,
            >(port as nat)
            &&& head[d + decimal(port as nat).len() as int] == '\r'
            &&& head.skip(head.len() - 4) == "\r\n\r\n"@
        }),
{
    reveal_strlit(" ");
    reveal_strlit(" HTTP/1.1\r\n");
    reveal_strlit("Host: 127.0.0.1:");
    reveal_strlit(" HTTP/1.1\r\nHost: 127.0.0.1:");
    reveal_strlit("\r\nAuthorization: Bearer ");
    reveal_strlit("\r\nAccept: application/json\r\nConnection: close\r\n");
    reveal_strlit("Content-Type: application/json\r\nContent-Length: ");
    reveal_strlit("\r\n");
    reveal_strlit("\r\n\r\n");
    lemma_parse_decimal(port as nat, 65535);
    let head = request_head(port as nat, key, method, path, body_len);
    let line = method + " "@ + path + " HTTP/1.1\r\n"@;
    let host = "Host: 127.0.0.1:"@;
    let dp = decimal(port as nat);
    let tail = "\r\nAuthorization: Bearer "@ + key + "\r\nAccept: application/json\r\nConnection: close\r\n"@;
    let content = if body_len > 0 {
        "Content-Type: application/json\r\nContent-Length: "@ + decimal(body_len) + "\r\n"@
    } else {
        Seq::empty()
    };
    assert(" HTTP/1.1\r\nHost: 127.0.0.1:"@ =~= " HTTP/1.1\r\n"@ + host);
    assert(head =~= line + host + dp + tail + content + "\r\n"@);
    let d: int = line.len() as int + host.len() as int;
    assert(head.take(line.len() as int) =~= line);
    assert(head.subrange(line.len() as int, d) =~= host);
    assert(head.subrange(d, d + dp.len() as int) =~= dp);
    assert(head[d + dp.len() as int] == tail[0]);
    if body_len > 0 {
        assert(head.skip(head.len() - 4) =~= "\r\n\r\n"@);
    } else {
        assert(head.skip(head.len() - 4) =~= "\r\n\r\n"@);
    }
}

} // verus!
