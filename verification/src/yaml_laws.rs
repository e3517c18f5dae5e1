//! What writing a nested scalar does to reading it back.

use vstd::prelude::*;
use crate::number::{
    decimal, lemma_decimal_digits, lemma_parse_decimal, lemma_parse_decimal_overflow, IntErrorKind,
};
use crate::text::{
    lemma_first_line, trim_in,
    byte_len, find_char, in_class, is_ws, join_lines, lead_in, lemma_encode_concat,
    lemma_find_char, lemma_find_char_after, lemma_find_char_push, lemma_lead_in,
    lemma_lead_in_at, lemma_lead_in_push, lemma_lead_in_push_all, lemma_split_char_concat,
    lemma_split_char_len, lemma_split_char_pieces, lemma_split_join, lemma_trail_in,
    lemma_trail_in_at, lemma_trim_after_ws, lemma_trim_end_push, lemma_trim_of_trim_end,
    lemma_join_no_crlf, lemma_replace_crlf_noop, lemma_replace_crlf_last, lemma_split_char_last,
    lemma_split_replace_crlf, lemma_split_char_last_piece, lemma_replace_crlf_lacks_cr,
    lemma_split_char_lacks, cr_before_lf, lacks, replace_crlf, starts_with, split_char, strip_cr, text_lines, trail_in, trim, trim_end, trim_start,
    CharClass,
};
use crate::yaml::{
    before_hash, child_line, child_spot, edit_lines, ends_nl, finished, indent_of, is_blank,
    is_comment, is_section, key_line, nested_from, nested_value, scalar_text, scalar_value,
    upsert_from, upsert_text, Spot, plain_secret, cleared_text, secret_key, secret_section,
    bcrypt_like, content_scalar, content_port,
};

verus! {

/// Removing a final `\r` does not change how a line reads.
pub proof fn lemma_strip_cr_reads_same(l: Seq<char>)
    ensures
        is_comment(strip_cr(l)) == is_comment(l),
        is_blank(strip_cr(l)) == is_blank(l),
        key_line(strip_cr(l)) == key_line(l),
        trim(strip_cr(l)) == trim(l),
{
    if l.len() > 0 && l.last() == '\r' {
        let ws = CharClass::Whitespace;
        let m = l.drop_last();
        assert(m.push('\r') == l);
        assert(in_class(ws, '\r'));
        lemma_lead_in(m, ws);
        if lead_in(m, ws) == m.len() {
            lemma_lead_in_push_all(m, '\r', ws);
            assert(l.skip(l.len() as int) == Seq::<char>::empty());
            assert(m.skip(m.len() as int) == Seq::<char>::empty());
        } else {
            lemma_lead_in_push(m, '\r', ws);
            let n = lead_in(m, ws) as int;
            let tm = m.skip(n);
            assert(l.skip(n) == tm.push('\r'));
            lemma_trim_end_push(tm, '\r', ws);
            assert(l.skip(n)[0] == tm[0]);
            lemma_find_char_push(tm, '\r', ':');
            assert(l.take(n) == m.take(n));
            lemma_find_char(tm, ':');
            if let Some(p) = find_char(tm, ':') {
                assert(tm.push('\r').take(p) == tm.take(p));
            }
        }
    }
}

/// A blank line has no key.
pub proof fn lemma_blank_has_no_key(l: Seq<char>)
    requires
        is_blank(l),
    ensures
        key_line(l) is None,
        !is_comment(l),
{
    let ws = CharClass::Whitespace;
    let t = trim_start(l);
    lemma_lead_in(l, ws);
    lemma_trail_in(t, ws);
    lemma_find_char(t, ':');
    if let Some(p) = find_char(t, ':') {
        assert(in_class(ws, t[p]));
    }
    if t.len() > 0 {
        assert(in_class(ws, t[0]));
    }
}

/// `m` reads like `l`: line by line the same up to a final `\r`, and the
/// lines `m` lacks at the end are blank.
pub open spec fn reads_like(m: Seq<Seq<char>>, l: Seq<Seq<char>>) -> bool {
    &&& m.len() <= l.len()
    &&& forall|j: int| 0 <= j < m.len() ==> (#[trigger] m[j] == l[j] || m[j] == strip_cr(l[j]))
    &&& forall|j: int| m.len() <= j < l.len() ==> is_blank(#[trigger] l[j])
}

proof fn lemma_pair_reads_same(a: Seq<char>, b: Seq<char>)
    requires
        a == b || a == strip_cr(b),
    ensures
        is_comment(a) == is_comment(b),
        is_blank(a) == is_blank(b),
        key_line(a) == key_line(b),
        trim(a) == trim(b),
{
    lemma_strip_cr_reads_same(b);
}

/// A line the scan below a header indented by `ind` passes over.
pub open spec fn passes(l: Seq<char>, ind: nat, key: Seq<char>) -> bool {
    ||| is_blank(l)
    ||| is_comment(l)
    ||| key_line(l) is None
    ||| (key_line(l) matches Some((ii, kk)) && ii > ind && kk != key)
}

/// What the scan's result says of the lines it went over.
pub proof fn lemma_child_spot_shape(ls: Seq<Seq<char>>, ind: nat, key: Seq<char>, a: int)
    requires
        0 <= a,
    ensures
        match child_spot(ls, ind, key, a) {
            Spot::Before(x) => {
                &&& a <= x < ls.len()
                &&& forall|j: int| a <= j < x ==> passes(#[trigger] ls[j], ind, key)
                &&& !is_blank(ls[x]) && !is_comment(ls[x])
                &&& key_line(ls[x]) matches Some((ii, _)) && ii <= ind
            },
            Spot::At(x) => {
                &&& a <= x < ls.len()
                &&& forall|j: int| a <= j < x ==> passes(#[trigger] ls[j], ind, key)
                &&& !is_blank(ls[x]) && !is_comment(ls[x])
                &&& key_line(ls[x]) matches Some((ii, kk)) && ii > ind && kk == key
            },
            Spot::End => forall|j: int| a <= j < ls.len() ==> passes(#[trigger] ls[j], ind, key),
        },
    decreases ls.len() - a,
{
    if a < ls.len() {
        lemma_child_spot_shape(ls, ind, key, a + 1);
    }
}

/// Lines the scan passes over do not change where it stops.
pub proof fn lemma_child_spot_skip(ls: Seq<Seq<char>>, ind: nat, key: Seq<char>, a: int, x: int)
    requires
        0 <= a <= x <= ls.len(),
        forall|j: int| a <= j < x ==> passes(#[trigger] ls[j], ind, key),
    ensures
        child_spot(ls, ind, key, a) == child_spot(ls, ind, key, x),
    decreases x - a,
{
    if a < x {
        assert(passes(ls[a], ind, key));
        lemma_child_spot_skip(ls, ind, key, a + 1, x);
    }
}

proof fn lemma_child_spot_reads_like(
    m: Seq<Seq<char>>,
    l: Seq<Seq<char>>,
    ind: nat,
    key: Seq<char>,
    j: int,
)
    requires
        reads_like(m, l),
    ensures
        child_spot(m, ind, key, j) == child_spot(l, ind, key, j),
    decreases l.len() - j,
{
    if 0 <= j < l.len() {
        lemma_child_spot_reads_like(m, l, ind, key, j + 1);
        if j < m.len() {
            lemma_pair_reads_same(m[j], l[j]);
        } else {
            lemma_blank_has_no_key(l[j]);
        }
    }
}

proof fn lemma_nested_reads_like(
    m: Seq<Seq<char>>,
    l: Seq<Seq<char>>,
    section: Seq<char>,
    key: Seq<char>,
    i: int,
)
    requires
        reads_like(m, l),
    ensures
        nested_from(m, section, key, i) == nested_from(l, section, key, i),
    decreases l.len() - i,
{
    if 0 <= i < l.len() {
        lemma_nested_reads_like(m, l, section, key, i + 1);
        if i < m.len() {
            lemma_pair_reads_same(m[i], l[i]);
            lemma_child_spot_reads_like(m, l, indent_of(l[i]), key, i + 1);
            lemma_child_spot_shape(l, indent_of(l[i]), key, i + 1);
            match child_spot(l, indent_of(l[i]), key, i + 1) {
                Spot::At(j) => {
                    if j < m.len() {
                        lemma_pair_reads_same(m[j], l[j]);
                    }
                },
                _ => {},
            }
        } else {
            lemma_blank_has_no_key(l[i]);
        }
    }
}

/// No line holds a line feed.
pub open spec fn no_line_feeds(ls: Seq<Seq<char>>) -> bool {
    forall|j: int| 0 <= j < ls.len() ==> find_char(#[trigger] ls[j], '\n') is None
}

/// The lines of a finished text read like the lines it was made of.
proof fn lemma_lines_of_finished(ls: Seq<Seq<char>>, trailing: bool)
    requires
        ls.len() >= 1,
        no_line_feeds(ls),
    ensures
        reads_like(text_lines(finished(ls, trailing)), ls),
{
    lemma_split_join(ls);
    let m = text_lines(finished(ls, trailing));
    if trailing {
        lemma_split_char_concat(join_lines(ls), Seq::empty(), '\n');
        assert(join_lines(ls).push('\n') + Seq::<char>::empty() == join_lines(ls).push('\n'));
        let segs = split_char(finished(ls, trailing), '\n');
        assert(segs == ls + seq![Seq::<char>::empty()]);
        assert(segs.drop_last() == ls);
        assert forall|j: int| 0 <= j < m.len() implies (#[trigger] m[j] == ls[j] || m[j]
            == strip_cr(ls[j])) by {}
    } else {
        let segs = split_char(finished(ls, trailing), '\n');
        assert(segs == ls);
        if ls.last().len() == 0 {
            assert(trim(ls.last()) == ls.last().skip(0).take(0));
            assert forall|j: int| m.len() <= j < ls.len() implies is_blank(#[trigger] ls[j]) by {}
        } else {
            assert forall|j: int| 0 <= j < m.len() implies (#[trigger] m[j] == ls[j] || m[j]
                == strip_cr(ls[j])) by {
                if j < m.len() - 1 {
                    assert(m[j] == strip_cr(ls[j]));
                }
            }
        }
    }
}

/// A key that reads back as itself on a `key: value` line.
pub open spec fn plain_key(key: Seq<char>) -> bool {
    &&& trim(key) == key
    &&& find_char(key, ':') is None
    &&& find_char(key, '\n') is None
    &&& !(key.len() > 0 && key[0] == '#')
}

proof fn lemma_trimmed_starts_solid(k: Seq<char>)
    requires
        trim(k) == k,
        k.len() > 0,
    ensures
        !is_ws(k[0]),
{
    let ws = CharClass::Whitespace;
    lemma_lead_in(k, ws);
    lemma_trail_in(k.skip(lead_in(k, ws) as int), ws);
}

/// `trim_end` and `skip` commute while the skipped part keeps a solid character.
proof fn lemma_trim_end_skip(t: Seq<char>, m: int)
    requires
        0 <= m <= t.len() - trail_in(t, CharClass::Whitespace),
    ensures
        trim_end(t).skip(m) == trim_end(t.skip(m)),
{
    let ws = CharClass::Whitespace;
    lemma_trail_in(t, ws);
    let b = trail_in(t, ws) as int;
    let u = t.skip(m);
    assert forall|i: int| u.len() - b <= i < u.len() implies in_class(ws, #[trigger] u[i]) by {
        assert(u[i] == t[m + i]);
    }
    if b < u.len() {
        assert(u[u.len() - b - 1] == t[t.len() - b - 1]);
    }
    lemma_trail_in_at(u, ws, b);
    assert(trim_end(t).skip(m) == u.take(u.len() - b));
}

/// A `#` cut and `trim` do not see trailing whitespace.
proof fn lemma_hash_trim_of_trim_end(x: Seq<char>)
    ensures
        trim(before_hash(trim_end(x))) == trim(before_hash(x)),
{
    let ws = CharClass::Whitespace;
    lemma_trail_in(x, ws);
    let y = trim_end(x);
    lemma_find_char(x, '#');
    lemma_find_char(y, '#');
    match find_char(x, '#') {
        Some(h) => {
            assert(!in_class(ws, x[h]));
            assert(h < x.len() - trail_in(x, ws));
            assert(y[h] == x[h]);
            match find_char(y, '#') {
                Some(h2) => {
                    assert(y[h2] == x[h2]);
                },
                None => {},
            }
            assert(y.take(h) == x.take(h));
        },
        None => {
            match find_char(y, '#') {
                Some(h2) => {
                    assert(y[h2] == x[h2]);
                },
                None => {},
            }
            lemma_trim_of_trim_end(x);
        },
    }
}

/// A leading space is not part of the scalar.
proof fn lemma_scalar_text_after_space(v: Seq<char>)
    ensures
        trim(before_hash(seq![' '] + v)) == trim(before_hash(v)),
{
    let sp = seq![' '];
    assert(sp[0] != '#');
    lemma_find_char_after(sp, v, '#');
    lemma_find_char(v, '#');
    match find_char(v, '#') {
        Some(i) => {
            assert((sp + v).take(i + 1) =~= sp + v.take(i));
        },
        None => {},
    }
    lemma_trim_after_ws(' ', before_hash(v));
}

/// The written child line: indentation, then `key: value`.
proof fn lemma_child_line_split(header: Seq<char>, key: Seq<char>, value: Seq<char>)
    requires
        plain_key(key),
    ensures
        lead_in(child_line(header, key, value), CharClass::Whitespace) == lead_in(
            header,
            CharClass::Whitespace,
        ) + 2,
        trim_start(child_line(header, key, value)) == key + seq![':', ' '] + value,
        byte_len(
            child_line(header, key, value).take(
                lead_in(child_line(header, key, value), CharClass::Whitespace) as int,
            ),
        ) == byte_len(header.take(lead_in(header, CharClass::Whitespace) as int)) + 2,
{
    let ws = CharClass::Whitespace;
    let n = lead_in(header, ws) as int;
    lemma_lead_in(header, ws);
    let p = header.take(n);
    let sp = seq![' ', ' '];
    let t = key + seq![':', ' '] + value;
    let repl = child_line(header, key, value);
    assert(repl == p + sp + t);
    let q: int = p.len() as int + 2;
    if key.len() > 0 {
        lemma_trimmed_starts_solid(key);
        assert(t[0] == key[0]);
    } else {
        assert(t[0] == ':');
    }
    assert forall|i: int| 0 <= i < q implies in_class(ws, #[trigger] repl[i]) by {
        if i < p.len() {
            assert(repl[i] == header[i]);
        } else {
            assert(repl[i] == ' ');
        }
    }
    assert(repl[q] == t[0]);
    lemma_lead_in_at(repl, ws, q);
    assert(repl.skip(q) == t);
    assert(repl.take(q) == p + sp);
    lemma_encode_concat(p, sp);
    reveal_with_fuel(vstd::utf8::encode_utf8, 3);
    assert(byte_len(sp) == 2);
}

/// The scalar of a trimmed `key: value` text.
proof fn lemma_key_value_scalar(key: Seq<char>, value: Seq<char>)
    requires
        plain_key(key),
    ensures
        find_char(key + seq![':', ' '] + value, ':') == Some(key.len() as int),
        trim_end(key + seq![':', ' '] + value).len() > 0,
        scalar_value(trim_end(key + seq![':', ' '] + value), key) == Some(scalar_text(value)),
{
    let ws = CharClass::Whitespace;
    let colon = seq![':', ' '];
    let t = key + colon + value;
    lemma_find_char(key, ':');
    lemma_find_char_after(key, colon + value, ':');
    assert((colon + value)[0] == ':');
    assert(find_char(colon + value, ':') == Some(0int));
    assert(key + (colon + value) == t);
    lemma_trail_in(t, ws);
    assert(t[key.len() as int] == ':');
    assert(key.len() < t.len() - trail_in(t, ws)) by {
        if key.len() >= t.len() - trail_in(t, ws) {
            assert(in_class(ws, t[key.len() as int]));
        }
    }
    let y = trim_end(t);
    let kc = key.push(':');
    assert(y.take(kc.len() as int) == kc);
    lemma_trim_end_skip(t, kc.len() as int);
    assert(t.skip(kc.len() as int) == seq![' '] + value);
    lemma_hash_trim_of_trim_end(seq![' '] + value);
    lemma_scalar_text_after_space(value);
}

/// How the written child line reads.
pub proof fn lemma_child_line_reads(header: Seq<char>, key: Seq<char>, value: Seq<char>)
    requires
        plain_key(key),
    ensures
        !is_blank(child_line(header, key, value)),
        !is_comment(child_line(header, key, value)),
        key_line(child_line(header, key, value)) == Some(
            (byte_len(header.take(lead_in(header, CharClass::Whitespace) as int)) + 2, key),
        ),
        scalar_value(trim(child_line(header, key, value)), key) == Some(scalar_text(value)),
{
    let t = key + seq![':', ' '] + value;
    lemma_child_line_split(header, key, value);
    lemma_key_value_scalar(key, value);
    assert(t.take(key.len() as int) == key);
    if key.len() > 0 {
        lemma_trimmed_starts_solid(key);
        assert(t[0] == key[0]);
    } else {
        assert(t[0] == ':');
    }
}

/// Some line from `i` on is a `section` header.
pub open spec fn has_section_from(ls: Seq<Seq<char>>, section: Seq<char>, i: int) -> bool {
    exists|j: int| i <= j < ls.len() && is_section(#[trigger] ls[j], section)
}

proof fn lemma_nested_none(ls: Seq<Seq<char>>, section: Seq<char>, key: Seq<char>, i: int)
    requires
        0 <= i,
        !has_section_from(ls, section, i),
    ensures
        nested_from(ls, section, key, i) is None,
    decreases ls.len() - i,
{
    if i < ls.len() {
        assert(!is_section(ls[i], section));
        assert(!has_section_from(ls, section, i + 1)) by {
            if has_section_from(ls, section, i + 1) {
                let j = choose|j: int| i + 1 <= j < ls.len() && is_section(#[trigger] ls[j], section);
                assert(i <= j < ls.len() && is_section(ls[j], section));
            }
        }
        lemma_nested_none(ls, section, key, i + 1);
    }
}

proof fn lemma_nested_skip(ls: Seq<Seq<char>>, section: Seq<char>, key: Seq<char>, a: int, i: int)
    requires
        0 <= a <= i <= ls.len(),
        forall|j: int| a <= j < i ==> !is_section(#[trigger] ls[j], section),
    ensures
        nested_from(ls, section, key, a) == nested_from(ls, section, key, i),
    decreases i - a,
{
    if a < i {
        assert(!is_section(ls[a], section));
        lemma_nested_skip(ls, section, key, a + 1, i);
    }
}

/// Neither part of a concatenation holds a line feed.
proof fn lemma_no_nl_concat(a: Seq<char>, b: Seq<char>)
    requires
        find_char(a, '\n') is None,
        find_char(b, '\n') is None,
    ensures
        find_char(a + b, '\n') is None,
{
    lemma_find_char(a, '\n');
    lemma_find_char(b, '\n');
    lemma_find_char_after(a, b, '\n');
}

proof fn lemma_child_line_no_nl(header: Seq<char>, key: Seq<char>, value: Seq<char>)
    requires
        find_char(header, '\n') is None,
        find_char(key, '\n') is None,
        find_char(value, '\n') is None,
    ensures
        find_char(child_line(header, key, value), '\n') is None,
{
    let p = header.take(lead_in(header, CharClass::Whitespace) as int);
    lemma_lead_in(header, CharClass::Whitespace);
    lemma_find_char(header, '\n');
    lemma_find_char(p, '\n');
    if let Some(x) = find_char(p, '\n') {
        assert(p[x] == header[x]);
    }
    let sp = seq![' ', ' '];
    let colon = seq![':', ' '];
    lemma_find_char(sp, '\n');
    lemma_find_char(colon, '\n');
    if let Some(x) = find_char(sp, '\n') {
        assert(sp[x] == ' ');
    }
    if let Some(x) = find_char(colon, '\n') {
        assert(colon[x] == ':' || colon[x] == ' ');
    }
    lemma_no_nl_concat(p, sp);
    lemma_no_nl_concat(p + sp, key);
    lemma_no_nl_concat(p + sp + key, colon);
    lemma_no_nl_concat(p + sp + key + colon, value);
}

/// No line that a line feed follows ends in `\r` (the last line is
/// followed by one when `trailing`).
pub open spec fn settled(ls: Seq<Seq<char>>, trailing: bool) -> bool {
    forall|j: int|
        0 <= j < ls.len() && (j < ls.len() - 1 || trailing) ==> !(#[trigger] ls[j].len() > 0
            && ls[j].last() == '\r')
}

/// Upserting at the header on line `i`: the child line lands at the
/// returned position, which a scan from below the header now stops at.
proof fn lemma_upsert_at_header(
    ls: Seq<Seq<char>>,
    section: Seq<char>,
    key: Seq<char>,
    value: Seq<char>,
    i: int,
) -> (pos: int)
    requires
        0 <= i < ls.len(),
        is_section(ls[i], section),
        plain_key(key),
        find_char(value, '\n') is None,
        no_line_feeds(ls),
    ensures
        ({
            let lp = upsert_from(ls, section, key, value, i);
            &&& i < pos < lp.len()
            &&& lp.len() >= ls.len()
            &&& lp[pos] == child_line(ls[i], key, value)
            &&& forall|j: int| 0 <= j < pos ==> #[trigger] lp[j] == ls[j]
            &&& child_spot(lp, indent_of(ls[i]), key, i + 1) == Spot::At(pos)
            &&& no_line_feeds(lp)
            &&& ls.last().len() > 0 ==> lp.last().len() > 0
        }),
{
    let header = ls[i];
    let repl = child_line(header, key, value);
    let ind = indent_of(header);
    lemma_child_line_reads(header, key, value);
    lemma_child_line_no_nl(header, key, value);
    lemma_child_spot_shape(ls, ind, key, i + 1);
    let spot = child_spot(ls, ind, key, i + 1);
    let pos: int = match spot {
        Spot::Before(x) => x,
        Spot::At(x) => x,
        Spot::End => ls.len() as int,
    };
    let lp = upsert_from(ls, section, key, value, i);
    assert(lp.len() >= ls.len());
    assert(forall|j: int| 0 <= j < pos ==> #[trigger] lp[j] == ls[j]);
    assert(lp[pos] == repl);
    assert forall|j: int| i + 1 <= j < pos implies passes(#[trigger] lp[j], ind, key) by {
        assert(lp[j] == ls[j]);
    }
    lemma_child_spot_skip(lp, ind, key, i + 1, pos);
    assert(child_spot(lp, ind, key, pos) == Spot::At(pos));
    let tail = key + seq![':', ' '] + value;
    assert(repl == header.take(lead_in(header, CharClass::Whitespace) as int) + seq![' ', ' ']
        + tail);
    assert(repl.len() > 0);
    assert forall|j: int| 0 <= j < lp.len() implies find_char(#[trigger] lp[j], '\n') is None by {
        if j != pos {
            match spot {
                Spot::Before(x) => {
                    if j < x {
                        assert(lp[j] == ls[j]);
                    } else {
                        assert(lp[j] == ls[j - 1]);
                    }
                },
                _ => {
                    assert(lp[j] == ls[j]);
                },
            }
        }
    }
    match spot {
        Spot::Before(x) => {
            assert(lp.last() == ls.last());
        },
        Spot::At(x) => {
            if x < ls.len() - 1 {
                assert(lp.last() == ls.last());
            }
        },
        Spot::End => {},
    }
    pos
}

/// Upserting from the first header on, then reading, gives the written scalar.
proof fn lemma_upsert_read_from(
    ls: Seq<Seq<char>>,
    section: Seq<char>,
    key: Seq<char>,
    value: Seq<char>,
    i: int,
)
    requires
        0 <= i <= ls.len(),
        ls.len() >= 1,
        plain_key(key),
        find_char(value, '\n') is None,
        no_line_feeds(ls),
        forall|j: int| 0 <= j < i ==> !is_section(#[trigger] ls[j], section),
    ensures
        nested_from(upsert_from(ls, section, key, value, i), section, key, 0) == (if has_section_from(
            ls,
            section,
            i,
        ) {
            Some(scalar_text(value))
        } else {
            None
        }),
        upsert_from(ls, section, key, value, i).len() >= 1,
        no_line_feeds(upsert_from(ls, section, key, value, i)),
    decreases ls.len() - i,
{
    if i == ls.len() {
        assert(!has_section_from(ls, section, 0)) by {
            if has_section_from(ls, section, 0) {
                let j = choose|j: int| 0 <= j < ls.len() && is_section(#[trigger] ls[j], section);
                assert(!is_section(ls[j], section));
            }
        }
        lemma_nested_none(ls, section, key, 0);
    } else if !is_section(ls[i], section) {
        lemma_upsert_read_from(ls, section, key, value, i + 1);
        assert(has_section_from(ls, section, i) == has_section_from(ls, section, i + 1)) by {
            if has_section_from(ls, section, i) {
                let j = choose|j: int| i <= j < ls.len() && is_section(#[trigger] ls[j], section);
                assert(j != i);
                assert(i + 1 <= j < ls.len() && is_section(ls[j], section));
            }
        }
    } else {
        let header = ls[i];
        let pos = lemma_upsert_at_header(ls, section, key, value, i);
        lemma_child_line_reads(header, key, value);
        let lp = upsert_from(ls, section, key, value, i);
        assert(lp[i] == header);
        assert(nested_from(lp, section, key, i) == Some(scalar_text(value)));
        assert forall|j: int| 0 <= j < i implies !is_section(#[trigger] lp[j], section) by {
            assert(lp[j] == ls[j]);
        }
        lemma_nested_skip(lp, section, key, 0, i);
        assert(is_section(ls[i], section));
        assert(has_section_from(ls, section, i));
    }
}

proof fn lemma_upsert_skip(
    ls: Seq<Seq<char>>,
    section: Seq<char>,
    key: Seq<char>,
    value: Seq<char>,
    a: int,
    i: int,
)
    requires
        0 <= a <= i <= ls.len(),
        forall|j: int| a <= j < i ==> !is_section(#[trigger] ls[j], section),
    ensures
        upsert_from(ls, section, key, value, a) == upsert_from(ls, section, key, value, i),
    decreases i - a,
{
    if a < i {
        assert(!is_section(ls[a], section));
        lemma_upsert_skip(ls, section, key, value, a + 1, i);
    }
}

/// Upserting the upserted lines again changes nothing.
proof fn lemma_upsert_twice_from(
    ls: Seq<Seq<char>>,
    section: Seq<char>,
    key: Seq<char>,
    value: Seq<char>,
    i: int,
)
    requires
        0 <= i <= ls.len(),
        plain_key(key),
        find_char(value, '\n') is None,
        no_line_feeds(ls),
        forall|j: int| 0 <= j < i ==> !is_section(#[trigger] ls[j], section),
    ensures
        upsert_from(upsert_from(ls, section, key, value, i), section, key, value, 0) == upsert_from(
            ls,
            section,
            key,
            value,
            i,
        ),
        no_line_feeds(upsert_from(ls, section, key, value, i)),
        ls.len() > 0 && ls.last().len() > 0 ==> upsert_from(ls, section, key, value, i).last().len() > 0,
        upsert_from(ls, section, key, value, i).len() >= ls.len(),
    decreases ls.len() - i,
{
    if i == ls.len() {
        lemma_upsert_skip(ls, section, key, value, 0, i);
    } else if !is_section(ls[i], section) {
        lemma_upsert_twice_from(ls, section, key, value, i + 1);
    } else {
        let header = ls[i];
        let pos = lemma_upsert_at_header(ls, section, key, value, i);
        let lp = upsert_from(ls, section, key, value, i);
        assert(lp[i] == header);
        assert forall|j: int| 0 <= j < i implies !is_section(#[trigger] lp[j], section) by {
            assert(lp[j] == ls[j]);
        }
        lemma_upsert_skip(lp, section, key, value, 0, i);
        assert(upsert_from(lp, section, key, value, i) == lp.update(pos, child_line(header, key, value)));
        assert(lp.update(pos, child_line(header, key, value)) =~= lp);
    }
}

/// The lines `upsert_nested_yaml_scalar` edits are at least one and hold no line feed.
proof fn lemma_edit_lines_shape(content: Seq<char>)
    ensures
        edit_lines(content).len() >= 1,
        no_line_feeds(edit_lines(content)),
{
    let r = replace_crlf(content);
    let segs = split_char(r, '\n');
    lemma_split_char_len(r, '\n');
    lemma_split_char_pieces(r, '\n');
    if ends_nl(content) && segs.last().len() == 0 {
        assert(r.len() > 0 && r.last() == '\n');
        lemma_split_char_len(r.drop_last(), '\n');
        assert forall|j: int| 0 <= j < segs.drop_last().len() implies find_char(
            #[trigger] segs.drop_last()[j],
            '\n',
        ) is None by {
            assert(segs.drop_last()[j] == segs[j]);
        }
    }
}

/// The lines `upsert_nested_yaml_scalar` edits are the lines `str::lines`
/// reads, but for the one empty line it edits in an empty text.
proof fn lemma_edit_lines_are_text_lines(content: Seq<char>)
    ensures
        content.len() > 0 ==> edit_lines(content) == text_lines(content),
        content.len() == 0 ==> edit_lines(content) == seq![Seq::<char>::empty()] && text_lines(
            content,
        ) == Seq::<Seq<char>>::empty(),
{
    let nl = '\n';
    let segs = split_char(content, nl);
    lemma_split_replace_crlf(content);
    lemma_split_char_len(content, nl);
    let init = segs.drop_last().map_values(|l: Seq<char>| strip_cr(l));
    let n = split_char(replace_crlf(content), nl);
    assert(n == init.push(segs.last()));
    assert(n.drop_last() =~= init);
    if content.len() == 0 {
        assert(segs == seq![Seq::<char>::empty()]);
        assert(init =~= Seq::<Seq<char>>::empty());
        assert(replace_crlf(content) == content);
    } else {
        lemma_split_char_last_piece(content, nl);
    }
}

/// A text has a `section` header among the lines `str::lines` reads exactly
/// when it has one among the lines `upsert_nested_yaml_scalar` edits.
proof fn lemma_same_sections(content: Seq<char>, section: Seq<char>)
    ensures
        has_section_from(text_lines(content), section, 0) == has_section_from(
            edit_lines(content),
            section,
            0,
        ),
{
    lemma_edit_lines_are_text_lines(content);
    if content.len() == 0 {
        let e = Seq::<char>::empty();
        assert(e.skip(0) == e && e.take(0) == e);
        lemma_blank_has_no_key(e);
        assert(!is_section(edit_lines(content)[0], section));
    }
}

/// Reading `section.key` back after `upsert_nested_yaml_scalar` wrote
/// `value` there gives the scalar text of `value` when a line of the text
/// (as `str::lines` reads it) is a `section` header; without one nothing is
/// written and nothing is read.
pub proof fn lemma_upsert_then_read(
    content: Seq<char>,
    section: Seq<char>,
    key: Seq<char>,
    value: Seq<char>,
)
    requires
        plain_key(key),
        find_char(value, '\n') is None,
    ensures
        nested_value(upsert_text(content, section, key, value), section, key) == (if has_section_from(
            text_lines(content),
            section,
            0,
        ) {
            Some(scalar_text(value))
        } else {
            None
        }),
{
    let ls = edit_lines(content);
    lemma_same_sections(content, section);
    lemma_edit_lines_shape(content);
    lemma_upsert_read_from(ls, section, key, value, 0);
    let lp = upsert_from(ls, section, key, value, 0);
    lemma_lines_of_finished(lp, ends_nl(content));
    lemma_nested_reads_like(text_lines(finished(lp, ends_nl(content))), lp, section, key, 0);
}

proof fn lemma_secret_key_plain()
    ensures
        plain_key(secret_key()),
        find_char("\"\""@, '\n') is None,
        lacks("\"\""@, '\r'),
{
    reveal_strlit("secret-key");
    reveal_strlit("\"\"");
    let key = secret_key();
    let value = "\"\""@;
    lemma_find_char(key, ':');
    lemma_find_char(key, '\n');
    lemma_find_char(value, '\n');
    lemma_lead_in_at(key, CharClass::Whitespace, 0);
    lemma_trail_in_at(key, CharClass::Whitespace, 0);
    assert(key.skip(0) == key);
    assert(key.take(key.len() as int) == key);
}

/// Clearing the secret of a cleared text changes nothing, when every `\r`
/// of the text comes before a `\n`.
pub proof fn lemma_clear_idempotent(content: Seq<char>)
    requires
        cr_before_lf(content),
    ensures
        cleared_text(cleared_text(content)) == cleared_text(content),
{
    lemma_secret_key_plain();
    lemma_upsert_idempotent(content, secret_section(), secret_key(), "\"\""@);
}

/// After `clear_management_secret` no plain-text management secret can be read.
pub proof fn lemma_cleared_secret_unreadable(content: Seq<char>)
    ensures
        plain_secret(cleared_text(content)) is None,
{
    reveal_strlit("\"\"");
    let key = secret_key();
    let value = "\"\""@;
    lemma_secret_key_plain();
    lemma_upsert_then_read(content, secret_section(), key, value);
    // the written scalar is empty
    lemma_find_char(value, '#');
    assert(before_hash(value) == value);
    lemma_lead_in_at(value, CharClass::Whitespace, 0);
    lemma_trail_in_at(value, CharClass::Whitespace, 0);
    assert(value.skip(0) == value);
    assert(value.take(value.len() as int) == value);
    assert(trim(value) == value);
    lemma_lead_in_at(value, CharClass::Is('"'), 2);
    let e = Seq::<char>::empty();
    assert(value.skip(2) == e);
    lemma_trail_in_at(e, CharClass::Is('"'), 0);
    lemma_lead_in_at(e, CharClass::Is('\''), 0);
    lemma_trail_in_at(e, CharClass::Is('\''), 0);
    assert(e.skip(0) == e && e.take(0) == e);
    assert(scalar_text(value) == e);
    lemma_lead_in_at(e, CharClass::Whitespace, 0);
    lemma_trail_in_at(e, CharClass::Whitespace, 0);
    assert(trim(e) == e);
}

/// The lines of a finished text, edited again, are the lines it was made of.
proof fn lemma_edit_lines_of_finished(ls: Seq<Seq<char>>, trailing: bool)
    requires
        ls.len() >= 1,
        no_line_feeds(ls),
        settled(ls, trailing),
        !trailing && ls.len() > 1 ==> ls.last().len() > 0,
    ensures
        edit_lines(finished(ls, trailing)) == ls,
{
    lemma_join_no_crlf(ls);
    lemma_split_join(ls);
    let j = join_lines(ls);
    if trailing {
        lemma_replace_crlf_noop(j.push('\n'));
        lemma_split_char_concat(j, Seq::empty(), '\n');
        assert(j.push('\n') + Seq::<char>::empty() == j.push('\n'));
        assert((ls + seq![Seq::<char>::empty()]).drop_last() == ls);
    } else {
        lemma_replace_crlf_noop(j);
        if ls.len() > 1 {
            assert(j == join_lines(ls.drop_last()) + seq!['\n'] + ls.last());
            assert(j.last() == ls.last().last());
            lemma_find_char(ls[ls.len() - 1], '\n');
            assert(ls.last()[ls.last().len() - 1] != '\n');
        }
    }
}

/// Writing the same nested scalar twice, when no written line that a line
/// feed follows ends in `\r`.
proof fn lemma_upsert_idempotent_settled(
    content: Seq<char>,
    section: Seq<char>,
    key: Seq<char>,
    value: Seq<char>,
)
    requires
        plain_key(key),
        find_char(value, '\n') is None,
        settled(upsert_from(edit_lines(content), section, key, value, 0), ends_nl(content)),
    ensures
        upsert_text(upsert_text(content, section, key, value), section, key, value) == upsert_text(
            content,
            section,
            key,
            value,
        ),
{
    let ls = edit_lines(content);
    let t = ends_nl(content);
    lemma_edit_lines_shape(content);
    lemma_upsert_twice_from(ls, section, key, value, 0);
    let lp = upsert_from(ls, section, key, value, 0);
    let out = finished(lp, t);
    if !t {
        // the last line of a text without a final line feed is not empty
        let r = replace_crlf(content);
        if content.len() > 0 {
            lemma_replace_crlf_last(content);
            lemma_split_char_last(r, '\n');
            assert(ls.last().len() > 0);
        } else {
            assert(r == content);
            assert(ls == seq![Seq::<char>::empty()]);
            let e = Seq::<char>::empty();
            assert(e.skip(0) == e && e.take(0) == e);
            lemma_blank_has_no_key(ls[0]);
            lemma_upsert_skip(ls, section, key, value, 0, 1);
            assert(lp == ls);
        }
    }
    lemma_edit_lines_of_finished(lp, t);
    assert(ends_nl(out) == t) by {
        if !t {
            let j = join_lines(lp);
            if lp.len() > 1 {
                assert(j == join_lines(lp.drop_last()) + seq!['\n'] + lp.last());
                lemma_find_char(lp[lp.len() - 1], '\n');
                assert(lp.last().len() > 0);
                assert(j.last() == lp.last().last());
            } else {
                lemma_find_char(lp[0], '\n');
                if j.len() > 0 {
                    assert(j.last() == lp[0][lp[0].len() - 1]);
                }
            }
        }
    }
}

/// With every `\r` of the text before a `\n`, no line it edits ends in `\r`.
proof fn lemma_edit_lines_no_cr_end(content: Seq<char>)
    requires
        cr_before_lf(content),
    ensures
        forall|j: int| 0 <= j < edit_lines(content).len() ==> lacks(#[trigger] edit_lines(content)[j], '\r'),
{
    let r = replace_crlf(content);
    lemma_replace_crlf_lacks_cr(content);
    lemma_split_char_lacks(r, '\n', '\r');
    let segs = split_char(r, '\n');
    let ls = edit_lines(content);
    assert forall|j: int| 0 <= j < ls.len() implies lacks(#[trigger] ls[j], '\r') by {
        assert(ls[j] == segs[j]);
    }
}

/// A line without `\r` does not end in one.
proof fn lemma_lacks_cr_end(l: Seq<char>)
    requires
        lacks(l, '\r'),
    ensures
        !(l.len() > 0 && l.last() == '\r'),
{
    if l.len() > 0 {
        assert(l[l.len() - 1] != '\r');
    }
}

/// The written child line does not end in `\r` when the value holds none.
proof fn lemma_child_line_no_cr_end(header: Seq<char>, key: Seq<char>, value: Seq<char>)
    requires
        lacks(value, '\r'),
    ensures
        !(child_line(header, key, value).len() > 0 && child_line(header, key, value).last() == '\r'),
{
    let l = child_line(header, key, value);
    let front = header.take(lead_in(header, CharClass::Whitespace) as int) + seq![' ', ' '] + key
        + seq![':', ' '];
    assert(l == front + value);
    if value.len() > 0 {
        assert(l.last() == value[value.len() - 1]);
    } else {
        assert(l.last() == ' ');
    }
}

/// Upserting keeps every line free of a final `\r`.
proof fn lemma_upsert_no_cr_end(
    ls: Seq<Seq<char>>,
    section: Seq<char>,
    key: Seq<char>,
    value: Seq<char>,
    i: int,
)
    requires
        0 <= i,
        lacks(value, '\r'),
        forall|j: int| 0 <= j < ls.len() ==> !(#[trigger] ls[j].len() > 0 && ls[j].last() == '\r'),
    ensures
        forall|j: int|
            0 <= j < upsert_from(ls, section, key, value, i).len() ==> !(
            #[trigger] upsert_from(ls, section, key, value, i)[j].len() > 0 && upsert_from(
                ls,
                section,
                key,
                value,
                i,
            )[j].last() == '\r'),
    decreases ls.len() - i,
{
    if i < ls.len() {
        if is_section(ls[i], section) {
            let repl = child_line(ls[i], key, value);
            lemma_child_line_no_cr_end(ls[i], key, value);
            let out = upsert_from(ls, section, key, value, i);
            match child_spot(ls, indent_of(ls[i]), key, i + 1) {
                Spot::Before(p) => {
                    lemma_child_spot_shape(ls, indent_of(ls[i]), key, i + 1);
                    assert(out == ls.insert(p, repl));
                    assert forall|j: int| 0 <= j < out.len() implies !(#[trigger] out[j].len() > 0
                        && out[j].last() == '\r') by {
                        if j < p {
                            assert(out[j] == ls[j]);
                        } else if j > p {
                            assert(out[j] == ls[j - 1]);
                        } else {
                            assert(out[j] == repl);
                        }
                    }
                },
                Spot::At(p) => {
                    lemma_child_spot_shape(ls, indent_of(ls[i]), key, i + 1);
                    assert(out == ls.update(p, repl));
                    assert forall|j: int| 0 <= j < out.len() implies !(#[trigger] out[j].len() > 0
                        && out[j].last() == '\r') by {
                        if j != p {
                            assert(out[j] == ls[j]);
                        } else {
                            assert(out[j] == repl);
                        }
                    }
                },
                Spot::End => {
                    assert(out == ls.push(repl));
                    assert forall|j: int| 0 <= j < out.len() implies !(#[trigger] out[j].len() > 0
                        && out[j].last() == '\r') by {
                        if j < ls.len() {
                            assert(out[j] == ls[j]);
                        } else {
                            assert(out[j] == repl);
                        }
                    }
                },
            }
        } else {
            lemma_upsert_no_cr_end(ls, section, key, value, i + 1);
            assert(upsert_from(ls, section, key, value, i) == upsert_from(ls, section, key, value, i + 1));
        }
    } else {
        assert(upsert_from(ls, section, key, value, i) == ls);
    }
}

/// Writing the same nested scalar a second time leaves the text as the
/// first write made it, when every `\r` of the text comes before a `\n`
/// and the value holds neither `\n` nor `\r`.
pub proof fn lemma_upsert_idempotent(
    content: Seq<char>,
    section: Seq<char>,
    key: Seq<char>,
    value: Seq<char>,
)
    requires
        plain_key(key),
        find_char(value, '\n') is None,
        lacks(value, '\r'),
        cr_before_lf(content),
    ensures
        upsert_text(upsert_text(content, section, key, value), section, key, value) == upsert_text(
            content,
            section,
            key,
            value,
        ),
{
    let ls = edit_lines(content);
    lemma_edit_lines_no_cr_end(content);
    assert forall|j: int| 0 <= j < ls.len() implies !(#[trigger] ls[j].len() > 0 && ls[j].last()
        == '\r') by {
        lemma_lacks_cr_end(ls[j]);
    }
    lemma_upsert_no_cr_end(ls, section, key, value, 0);
    lemma_upsert_idempotent_settled(content, section, key, value);
}

/// The bcrypt hash prefixes `$2a$`, `$2b$`, `$2x$`, `$2y$`.
pub open spec fn bcrypt_prefix(p: Seq<char>) -> bool {
    ||| p == seq!['$', '2', 'a', '$']
    ||| p == seq!['$', '2', 'b', '$']
    ||| p == seq!['$', '2', 'x', '$']
    ||| p == seq!['$', '2', 'y', '$']
}

/// A value is taken for a bcrypt hash exactly when its trimmed text starts
/// with one of the four bcrypt prefixes; such a stored secret is never
/// handed out as a usable plain-text management secret.
pub proof fn lemma_bcrypt_hashes_are_not_secrets(content: Seq<char>, v: Seq<char>)
    ensures
        bcrypt_like(v) <==> exists|p: Seq<char>| #[trigger] bcrypt_prefix(p) && starts_with(trim(v), p),
        nested_value(content, secret_section(), secret_key()) == Some(v) && (exists|p: Seq<char>|
            #[trigger] bcrypt_prefix(p) && starts_with(trim(v), p)) ==> plain_secret(content) is None,
{
    let t = trim(v);
    if bcrypt_like(v) {
        let p = seq!['$', '2', t[2], '$'];
        assert(t.take(4) =~= p);
        assert(bcrypt_prefix(p));
    }
    assert forall|p: Seq<char>| #[trigger] bcrypt_prefix(p) && starts_with(t, p) implies bcrypt_like(v) by {
        assert(t[0] == t.take(4)[0] && t[1] == t.take(4)[1] && t[2] == t.take(4)[2] && t[3] == t.take(4)[3]);
    }
}

/// A text whose first line is `key: value` gives the scalar text of
/// `value` for `key`, whatever follows.
pub proof fn lemma_first_line_scalar(key: Seq<char>, value: Seq<char>, rest: Seq<char>)
    requires
        plain_key(key),
        key.len() > 0,
        find_char(value, '\n') is None,
        !(value.len() > 0 && value.last() == '\r'),
    ensures
        content_scalar(key + seq![':', ' '] + value + seq!['\n'] + rest, key) == Some(scalar_text(value)),
{
    let ws = CharClass::Whitespace;
    let line = key + seq![':', ' '] + value;
    lemma_find_char(value, '\n');
    lemma_find_char(key, '\n');
    assert forall|i: int| 0 <= i < line.len() implies line[i] != '\n' by {
        if i < key.len() {
            assert(line[i] == key[i]);
        } else if i >= key.len() + 2 {
            assert(line[i] == value[i - key.len() - 2]);
        }
    }
    if value.len() > 0 {
        assert(line.last() == value.last());
    } else {
        assert(line.last() == ' ');
    }
    assert(key + seq![':', ' '] + value + seq!['\n'] + rest == line + seq!['\n'] + rest);
    lemma_first_line(line, rest);
    let ls = text_lines(line + seq!['\n'] + rest);
    assert(ls[0] == line);
    lemma_trimmed_starts_solid(key);
    assert(line[0] == key[0]);
    lemma_lead_in_at(line, ws, 0);
    assert(line.skip(0) == line);
    assert(trim(line) == trim_end(line));
    lemma_key_value_scalar(key, value);
    lemma_trail_in(line, ws);
    let n = line.len() - trail_in(line, ws);
    assert(trim_end(line) == line.take(n));
    assert(n > 0);
    assert(line.take(n)[0] == line[0]);
    assert(trim(line)[0] == key[0]);
}

/// A text whose first line is `port: N` reads port `N`.
pub proof fn lemma_port_line_reads(port: u16, rest: Seq<char>)
    ensures
        content_port("port"@ + seq![':', ' '] + decimal(port as nat) + seq!['\n'] + rest) == Ok::<
            Option<nat>,
            IntErrorKind,
        >(Some(port as nat)),
{
    reveal_strlit("port");
    let key = "port"@;
    let d = decimal(port as nat);
    lemma_find_char(key, ':');
    lemma_find_char(key, '\n');
    lemma_lead_in_at(key, CharClass::Whitespace, 0);
    lemma_trail_in_at(key, CharClass::Whitespace, 0);
    assert(key.skip(0) == key && key.take(key.len() as int) == key);
    lemma_decimal_digits(port as nat);
    lemma_parse_decimal(port as nat, 65535);
    lemma_find_char(d, '\n');
    lemma_find_char(d, '#');
    assert(d.len() > 0);
    assert(d.last() == d[d.len() - 1]);
    lemma_first_line_scalar(key, d, rest);
    // the digits are the scalar text as they stand
    assert(before_hash(d) == d);
    lemma_unchanged_by_trim(d, CharClass::Whitespace);
    lemma_unchanged_by_trim(d, CharClass::Is('"'));
    lemma_unchanged_by_trim(d, CharClass::Is('\''));
    assert(scalar_text(d) == d);
}

/// Trimming a class that neither end of `s` belongs to keeps `s`.
proof fn lemma_unchanged_by_trim(s: Seq<char>, k: CharClass)
    requires
        s.len() > 0,
        forall|i: int| 0 <= i < s.len() ==> 48 <= #[trigger] s[i] as u32 <= 57,
        k == CharClass::Whitespace || k == CharClass::Is('"') || k == CharClass::Is('\''),
    ensures
        trim_in(s, k) == s,
{
    assert(!in_class(k, s[0]));
    assert(!in_class(k, s[s.len() - 1]));
    lemma_lead_in_at(s, k, 0);
    lemma_trail_in_at(s, k, 0);
    assert(s.skip(0) == s && s.take(s.len() as int) == s);
}

/// Cutting an inline comment keeps the text before the first `#`: the kept
/// part is a prefix without `#`, followed by `#` unless it is all of it.
pub proof fn lemma_before_hash(s: Seq<char>)
    ensures
        before_hash(s).len() <= s.len(),
        s.take(before_hash(s).len() as int) == before_hash(s),
        forall|i: int| 0 <= i < before_hash(s).len() ==> #[trigger] before_hash(s)[i] != '#',
        before_hash(s).len() < s.len() ==> s[before_hash(s).len() as int] == '#',
{
    lemma_find_char(s, '#');
    if let Some(i) = find_char(s, '#') {
        assert forall|k: int| 0 <= k < before_hash(s).len() implies #[trigger] before_hash(s)[k] != '#' by {
            assert(before_hash(s)[k] == s[k]);
        }
    } else {
        assert(s.take(s.len() as int) == s);
    }
}

/// A first line `port: N` with `N` past 65535 is refused as too large.
pub proof fn lemma_port_line_too_large(n: nat, rest: Seq<char>)
    requires
        n > 65535,
    ensures
        content_port("port"@ + seq![':', ' '] + decimal(n) + seq!['\n'] + rest) == Err::<
            Option<nat>,
            IntErrorKind,
        >(IntErrorKind::PosOverflow),
{
    reveal_strlit("port");
    let key = "port"@;
    let d = decimal(n);
    lemma_find_char(key, ':');
    lemma_find_char(key, '\n');
    lemma_lead_in_at(key, CharClass::Whitespace, 0);
    lemma_trail_in_at(key, CharClass::Whitespace, 0);
    assert(key.skip(0) == key && key.take(key.len() as int) == key);
    lemma_decimal_digits(n);
    lemma_parse_decimal(n, n);
    lemma_parse_decimal_overflow(n, 65535);
    lemma_find_char(d, '\n');
    lemma_find_char(d, '#');
    assert(d.last() == d[d.len() - 1]);
    lemma_first_line_scalar(key, d, rest);
    assert(before_hash(d) == d);
    lemma_unchanged_by_trim(d, CharClass::Whitespace);
    lemma_unchanged_by_trim(d, CharClass::Is('"'));
    lemma_unchanged_by_trim(d, CharClass::Is('\''));
    assert(scalar_text(d) == d);
}

} // verus!
