//! The line-oriented YAML handling of the desktop shell: reading top-level
//! and nested scalars from `config.yaml` and writing one nested scalar back.

use vstd::prelude::*;
use vstd::string::StrSliceExecFns;
use vstd::string::StringExecFns;
use crate::text::{
    byte_len, byte_len_prefix, chars_of, find_char, find_char_from, lead_in, lemma_encode_concat, lemma_find_char,
    lemma_lead_in, opt_view, push_chars, same_chars, same_range, skip_backward, skip_forward, slice_chars, starts_with,
    string_of, trim, trim_bounds, trim_in, trim_start, trimmed, CharClass, lines_of, text_lines,
    views, split_char, replace_crlf, join_lines, string_views, push_char, split_chars,
    replace_crlf_chars, lemma_split_char_len,
};
use crate::number::{parse_uint, parse_uint_of, IntErrorKind};

verus! {

broadcast use vstd::string::group_string_axioms;

/// The part of `s` before its first `#` (`strip_inline_comment`).
pub open spec fn before_hash(s: Seq<char>) -> Seq<char> {
    match find_char(s, '#') {
        Some(i) => s.take(i),
        None => s,
    }
}

/// Surrounding double quotes and then single quotes removed.
pub open spec fn unquote(s: Seq<char>) -> Seq<char> {
    trim_in(trim_in(s, CharClass::Is('"')), CharClass::Is('\''))
}

/// The text of a scalar written after `key:`: comment cut off, trimmed, unquoted.
pub open spec fn scalar_text(rest: Seq<char>) -> Seq<char> {
    unquote(trim(before_hash(rest)))
}

/// `yaml_scalar_value`: the scalar of a line that begins with `key:`.
pub open spec fn scalar_value(line: Seq<char>, key: Seq<char>) -> Option<Seq<char>> {
    let p = key.push(':');
    if starts_with(line, p) {
        Some(scalar_text(line.skip(p.len() as int)))
    } else {
        None
    }
}

/// A line whose first non-whitespace character is `#`.
pub open spec fn is_comment(l: Seq<char>) -> bool {
    let t = trim_start(l);
    t.len() > 0 && t[0] == '#'
}

/// A line of whitespace only.
pub open spec fn is_blank(l: Seq<char>) -> bool {
    trim(l).len() == 0
}

/// `yaml_key_line`: for a line with a `:`, the UTF-8 width of its
/// indentation and the trimmed text before the first `:`.
pub open spec fn key_line(l: Seq<char>) -> Option<(nat, Seq<char>)> {
    let n = lead_in(l, CharClass::Whitespace);
    let t = l.skip(n as int);
    match find_char(t, ':') {
        Some(p) => Some((byte_len(l.take(n as int)), trim(t.take(p)))),
        None => None,
    }
}

/// Position of the first colon of `s[from..]`, counted from the start of `s`.
fn first_colon(s: &[char], from: usize) -> (r: Option<usize>)
    requires
        from <= s@.len(),
    ensures
        match r {
            Some(i) => from <= i < s@.len() && find_char(s@.skip(from as int), ':') == Some(
                i - from,
            ),
            None => find_char(s@.skip(from as int), ':') is None,
        },
{
    match find_char_from(s, from, ':') {
        Some(i) => {
            proof {
                lemma_find_char(s@.skip(from as int), ':');
            }
            Some(from + i)
        },
        None => None,
    }
}

/// `key_line` on a character slice: indentation width and the bounds of the key.
pub fn key_line_of(l: &[char]) -> (r: Option<(u128, usize, usize)>)
    ensures
        match r {
            Some((ind, a, b)) => a <= b <= l@.len() && key_line(l@) == Some(
                (ind as nat, l@.subrange(a as int, b as int)),
            ),
            None => key_line(l@) is None,
        },
{
    let n = skip_forward(l, 0, l.len(), &CharClass::Whitespace);
    assert(l@.subrange(0, l@.len() as int) == l@);
    match first_colon(l, n) {
        None => None,
        Some(p) => {
            let a = skip_forward(l, n, p, &CharClass::Whitespace);
            let b = skip_backward(l, a, p, &CharClass::Whitespace);
            let ind = byte_len_prefix(l, n);
            proof {
                let t = l@.skip(n as int);
                let kpart = t.take(p - n);
                assert(kpart == l@.subrange(n as int, p as int));
                assert(trim_start(kpart) == l@.subrange(a as int, p as int));
                assert(trim(kpart) == l@.subrange(a as int, b as int));
            }
            Some((ind, a, b))
        },
    }
}

pub fn is_comment_line(l: &[char]) -> (b: bool)
    ensures
        b == is_comment(l@),
{
    let n = skip_forward(l, 0, l.len(), &CharClass::Whitespace);
    assert(l@.subrange(0, l@.len() as int) == l@);
    n < l.len() && l[n] == '#'
}

pub fn is_blank_line(l: &[char]) -> (b: bool)
    ensures
        b == is_blank(l@),
{
    let (a, b) = trim_bounds(l, &CharClass::Whitespace);
    a == b
}

/// The part of the value before an inline `#` comment.
pub fn strip_inline_comment(value: &str) -> (r: &str)
    ensures
        r@ == before_hash(value@),
{
    let chars = chars_of(value);
    assert(chars@.skip(0) == chars@);
    match find_char_from(chars.as_slice(), 0, '#') {
        Some(i) => {
            proof {
                lemma_find_char(chars@, '#');
            }
            value.substring_char(0, i)
        },
        None => value.substring_char(0, chars.len()),
    }
}

/// `scalar_text` computed from `s[from..]`.
fn scalar_text_of(s: &[char], from: usize) -> (r: Vec<char>)
    requires
        from <= s@.len(),
    ensures
        r@ == scalar_text(s@.skip(from as int)),
{
    let end = match find_char_from(s, from, '#') {
        Some(i) => from + i,
        None => s.len(),
    };
    proof {
        lemma_find_char(s@.skip(from as int), '#');
        assert(before_hash(s@.skip(from as int)) == s@.subrange(from as int, end as int));
    }
    let cut = slice_chars(s, from, end);
    let t = trimmed(cut.as_slice(), &CharClass::Whitespace);
    let u = trimmed(t.as_slice(), &CharClass::Is('"'));
    trimmed(u.as_slice(), &CharClass::Is('\''))
}

/// `scalar_value` on character slices.
pub fn scalar_value_of(line: &[char], key: &[char]) -> (r: Option<Vec<char>>)
    ensures
        match r {
            Some(v) => scalar_value(line@, key@) == Some(v@),
            None => scalar_value(line@, key@) is None,
        },
{
    let klen = key.len();
    if klen >= line.len() {
        return None;
    }
    if !same_range(line, 0, klen, key) || line[klen] != ':' {
        proof {
            let p = key@.push(':');
            if starts_with(line@, p) {
                assert(line@.take(klen as int) == p.take(klen as int));
                assert(p.take(klen as int) == key@);
                assert(line@.subrange(0, klen as int) == line@.take(klen as int));
                assert(line@[klen as int] == line@.take(p.len() as int)[klen as int]);
            }
        }
        return None;
    }
    proof {
        let p = key@.push(':');
        assert(line@.take(p.len() as int) =~= p);
    }
    Some(scalar_text_of(line, klen + 1))
}

/// The scalar of a `key: value` line, unquoted, without an inline comment.
pub fn yaml_scalar_value(line: &str, key: &str) -> (r: Option<String>)
    ensures
        opt_view(r) == scalar_value(line@, key@),
{
    let l = chars_of(line);
    let k = chars_of(key);
    match scalar_value_of(l.as_slice(), k.as_slice()) {
        Some(v) => Some(string_of(v.as_slice())),
        None => None,
    }
}

/// Indentation (in bytes) and key of a `key: ...` line.
pub fn yaml_key_line(line: &str) -> (r: Option<(usize, &str)>)
    requires
        byte_len(line@) <= usize::MAX,
    ensures
        match r {
            Some((ind, k)) => key_line(line@) == Some((ind as nat, k@)),
            None => key_line(line@) is None,
        },
{
    let l = chars_of(line);
    match key_line_of(l.as_slice()) {
        None => None,
        Some((ind, a, b)) => {
            proof {
                let n = lead_in(l@, CharClass::Whitespace);
                lemma_lead_in(l@, CharClass::Whitespace);
                assert(l@ == l@.take(n as int) + l@.skip(n as int));
                lemma_encode_concat(l@.take(n as int), l@.skip(n as int));
            }
            Some((ind as usize, line.substring_char(a, b)))
        },
    }
}

/// A trimmed value that starts like a bcrypt hash (`$2a$`, `$2b$`, `$2x$`, `$2y$`).
pub open spec fn bcrypt_like(v: Seq<char>) -> bool {
    let t = trim(v);
    &&& t.len() >= 4
    &&& t[0] == '$'
    &&& t[1] == '2'
    &&& (t[2] == 'a' || t[2] == 'b' || t[2] == 'x' || t[2] == 'y')
    &&& t[3] == '$'
}

pub fn is_bcrypt_hash(value: &str) -> (b: bool)
    ensures
        b == bcrypt_like(value@),
{
    let v = chars_of(value);
    let t = trimmed(v.as_slice(), &CharClass::Whitespace);
    t.len() >= 4 && t[0] == '$' && t[1] == '2' && (t[2] == 'a' || t[2] == 'b' || t[2] == 'x'
        || t[2] == 'y') && t[3] == '$'
}

/// The trimmed value, unless it is empty.
pub open spec fn non_empty(v: Seq<char>) -> Option<Seq<char>> {
    if trim(v).len() == 0 {
        None
    } else {
        Some(trim(v))
    }
}

pub fn non_empty_str(value: &str) -> (r: Option<&str>)
    ensures
        match r {
            Some(t) => non_empty(value@) == Some(t@),
            None => non_empty(value@) is None,
        },
{
    let v = chars_of(value);
    let (a, b) = trim_bounds(v.as_slice(), &CharClass::Whitespace);
    if a == b {
        None
    } else {
        Some(value.substring_char(a, b))
    }
}

pub fn non_empty_string(value: String) -> (r: Option<String>)
    ensures
        opt_view(r) == non_empty(value@),
{
    match non_empty_str(value.as_str()) {
        Some(t) => Some(String::from_str(t)),
        None => None,
    }
}

/// The host a browser on this machine should use to reach the service.
pub open spec fn browser_host_text(host: Option<Seq<char>>) -> Seq<char> {
    let h = trim(
        match host {
            Some(h) => h,
            None => Seq::empty(),
        },
    );
    if h.len() == 0 || h == "0.0.0.0"@ || h == "::"@ || h == "[::]"@ || h == "::0"@ {
        "127.0.0.1"@
    } else if find_char(h, ':') is Some && h[0] != '[' {
        seq!['['] + h + seq![']']
    } else {
        h
    }
}

/// An address that only names "any interface" when bound to.
pub open spec fn wildcard_host(h: Seq<char>) -> bool {
    h.len() == 0 || h == "0.0.0.0"@ || h == "::"@ || h == "[::]"@ || h == "::0"@
}

/// The host handed to a browser is never empty and never a wildcard
/// bind address.
pub proof fn lemma_browser_host_usable(host: Option<Seq<char>>)
    ensures
        !wildcard_host(browser_host_text(host)),
{
    reveal_strlit("127.0.0.1");
    reveal_strlit("0.0.0.0");
    reveal_strlit("::");
    reveal_strlit("[::]");
    reveal_strlit("::0");
    let h = trim(
        match host {
            Some(h) => h,
            None => Seq::empty(),
        },
    );
    let r = browser_host_text(host);
    if !wildcard_host(h) && find_char(h, ':') is Some && h[0] != '[' {
        let b = seq!['['] + h + seq![']'];
        assert(b[0] == '[');
        if b == "[::]"@ {
            assert(b.len() == 4);
            assert(h =~= b.subrange(1, 3));
            assert(h =~= "::"@);
        }
    }
}

pub fn browser_host(host: Option<&str>) -> (r: String)
    ensures
        r@ == browser_host_text(
            match host {
                Some(h) => Some(h@),
                None => None,
            },
        ),
{
    let raw = match host {
        Some(h) => chars_of(h),
        None => Vec::new(),
    };
    let h = trimmed(raw.as_slice(), &CharClass::Whitespace);
    if h.len() == 0 || same_chars(h.as_slice(), chars_of("0.0.0.0").as_slice()) || same_chars(
        h.as_slice(),
        chars_of("::").as_slice(),
    ) || same_chars(h.as_slice(), chars_of("[::]").as_slice()) || same_chars(
        h.as_slice(),
        chars_of("::0").as_slice(),
    ) {
        return String::from_str("127.0.0.1");
    }
    assert(h@.skip(0) == h@);
    let colon = find_char_from(h.as_slice(), 0, ':');
    if colon.is_some() && h[0] != '[' {
        let mut r = String::from_str("[");
        push_chars(&mut r, h.as_slice());
        push_chars(&mut r, chars_of("]").as_slice());
        proof {
            reveal_strlit("[");
            reveal_strlit("]");
        }
        return r;
    }
    string_of(h.as_slice())
}

/// `s` ends with a line feed (`str::ends_with('\n')`).
pub open spec fn ends_nl(s: Seq<char>) -> bool {
    s.len() > 0 && s.last() == '\n'
}

/// The first scalar written as `key:` at the start of a non-comment line.
pub open spec fn first_scalar(lines: Seq<Seq<char>>, key: Seq<char>, i: int) -> Option<Seq<char>>
    decreases lines.len() - i,
{
    if i < 0 || i >= lines.len() {
        None
    } else {
        let t = trim(lines[i]);
        if t.len() > 0 && t[0] == '#' {
            first_scalar(lines, key, i + 1)
        } else {
            match scalar_value(t, key) {
                Some(v) => Some(v),
                None => first_scalar(lines, key, i + 1),
            }
        }
    }
}

/// The value of the first `key:` line of `content`, at any indentation.
pub open spec fn content_scalar(content: Seq<char>, key: Seq<char>) -> Option<Seq<char>> {
    first_scalar(text_lines(content), key, 0)
}

/// `first_scalar` over the lines of a text.
fn first_scalar_of(lines: &Vec<Vec<char>>, key: &[char]) -> (r: Option<Vec<char>>)
    ensures
        match r {
            Some(v) => first_scalar(views(lines@), key@, 0) == Some(v@),
            None => first_scalar(views(lines@), key@, 0) is None,
        },
{
    let ghost ls = views(lines@);
    let mut i: usize = 0;
    while i < lines.len()
        invariant
            i <= lines@.len(),
            ls == views(lines@),
            first_scalar(ls, key@, 0) == first_scalar(ls, key@, i as int),
        decreases lines@.len() - i,
    {
        assert(ls[i as int] == lines@[i as int]@);
        let t = trimmed(lines[i].as_slice(), &CharClass::Whitespace);
        if !(t.len() > 0 && t[0] == '#') {
            match scalar_value_of(t.as_slice(), key) {
                Some(v) => {
                    return Some(v);
                },
                None => {},
            }
        }
        i = i + 1;
    }
    None
}

/// Why the configured port could not be read.
#[derive(Clone, Copy, Debug, PartialEq, Eq, Structural)]
pub enum PortError {
    /// The `port:` value is not a `u16`.
    Parse(IntErrorKind),
}

/// `read_port_from_content`: the first `port:` value, parsed.
pub open spec fn content_port(content: Seq<char>) -> Result<Option<nat>, IntErrorKind> {
    match content_scalar(content, "port"@) {
        None => Ok(None),
        Some(v) => match parse_uint(trim(v), 10, 65535) {
            Ok(p) => Ok(Some(p)),
            Err(e) => Err(e),
        },
    }
}

pub fn read_port_from_content(content: &str) -> (r: Result<Option<u16>, PortError>)
    ensures
        match r {
            Ok(Some(p)) => content_port(content@) == Ok::<Option<nat>, IntErrorKind>(
                Some(p as nat),
            ),
            Ok(None) => content_port(content@) == Ok::<Option<nat>, IntErrorKind>(None),
            Err(PortError::Parse(e)) => content_port(content@) == Err::<Option<nat>, IntErrorKind>(e),
        },
{
    let chars = chars_of(content);
    let lines = lines_of(chars.as_slice());
    let key = chars_of("port");
    match first_scalar_of(&lines, key.as_slice()) {
        None => Ok(None),
        Some(v) => {
            let (a, b) = trim_bounds(v.as_slice(), &CharClass::Whitespace);
            match parse_uint_of(v.as_slice(), a, b, 10, 65535) {
                Ok(p) => Ok(Some(p as u16)),
                Err(e) => Err(PortError::Parse(e)),
            }
        },
    }
}

/// `read_host_from_content`: the first `host:` value.
pub fn read_host_from_content(content: &str) -> (r: Option<String>)
    ensures
        opt_view(r) == content_scalar(content@, "host"@),
{
    let chars = chars_of(content);
    let lines = lines_of(chars.as_slice());
    let key = chars_of("host");
    match first_scalar_of(&lines, key.as_slice()) {
        None => None,
        Some(v) => Some(string_of(v.as_slice())),
    }
}

/// `read_auth_dir_from_content`: the first `auth-dir:` value, unless it is blank.
pub open spec fn content_auth_dir(content: Seq<char>) -> Option<Seq<char>> {
    match content_scalar(content, "auth-dir"@) {
        None => None,
        Some(v) => non_empty(v),
    }
}

pub fn read_auth_dir_from_content(content: &str) -> (r: Option<String>)
    ensures
        opt_view(r) == content_auth_dir(content@),
{
    let chars = chars_of(content);
    let lines = lines_of(chars.as_slice());
    let key = chars_of("auth-dir");
    match first_scalar_of(&lines, key.as_slice()) {
        None => None,
        Some(v) => non_empty_string(string_of(v.as_slice())),
    }
}

/// Where the scan below a section header stops.
pub enum Spot {
    /// At a line indented no deeper than the header: the section ends before it.
    Before(int),
    /// At the child line that holds the key.
    At(int),
    /// The text ended first.
    End,
}

/// The indentation of a key line (0 for other lines).
pub open spec fn indent_of(l: Seq<char>) -> nat {
    match key_line(l) {
        Some((i, _)) => i,
        None => 0,
    }
}

/// A non-comment key line whose key is `section`.
pub open spec fn is_section(l: Seq<char>, section: Seq<char>) -> bool {
    &&& !is_comment(l)
    &&& key_line(l) matches Some((_, k))
    &&& k == section
}

/// Scan of the lines from `j` on, below a header indented by `indent`:
/// blank, comment and key-less lines are passed over, deeper key lines
/// with another key too.
pub open spec fn child_spot(lines: Seq<Seq<char>>, indent: nat, key: Seq<char>, j: int) -> Spot
    decreases lines.len() - j,
{
    if j < 0 || j >= lines.len() {
        Spot::End
    } else {
        let l = lines[j];
        if is_blank(l) || is_comment(l) {
            child_spot(lines, indent, key, j + 1)
        } else {
            match key_line(l) {
                None => child_spot(lines, indent, key, j + 1),
                Some((ind, k)) => if ind <= indent {
                    Spot::Before(j)
                } else if k == key {
                    Spot::At(j)
                } else {
                    child_spot(lines, indent, key, j + 1)
                },
            }
        }
    }
}

/// `nested_yaml_scalar_value` over lines, from line `i` on: the first
/// `section` header with a `key` child gives that child's scalar.
pub open spec fn nested_from(lines: Seq<Seq<char>>, section: Seq<char>, key: Seq<char>, i: int) -> Option<Seq<char>>
    decreases lines.len() - i,
{
    if i < 0 || i >= lines.len() {
        None
    } else if is_section(lines[i], section) {
        match child_spot(lines, indent_of(lines[i]), key, i + 1) {
            Spot::At(j) => scalar_value(trim(lines[j]), key),
            _ => nested_from(lines, section, key, i + 1),
        }
    } else {
        nested_from(lines, section, key, i + 1)
    }
}

/// The scalar of `section.key` in `content`.
pub open spec fn nested_value(content: Seq<char>, section: Seq<char>, key: Seq<char>) -> Option<Seq<char>> {
    nested_from(text_lines(content), section, key, 0)
}

enum SpotAt {
    Before(usize),
    At(usize),
    End,
}

spec fn spot_view(s: SpotAt) -> Spot {
    match s {
        SpotAt::Before(j) => Spot::Before(j as int),
        SpotAt::At(j) => Spot::At(j as int),
        SpotAt::End => Spot::End,
    }
}

fn child_spot_of(lines: &Vec<Vec<char>>, indent: u128, key: &[char], from: usize) -> (r: SpotAt)
    requires
        from <= lines@.len(),
    ensures
        spot_view(r) == child_spot(views(lines@), indent as nat, key@, from as int),
        match r {
            SpotAt::Before(j) => from <= j < lines@.len(),
            SpotAt::At(j) => from <= j < lines@.len(),
            SpotAt::End => true,
        },
{
    let ghost ls = views(lines@);
    let mut j = from;
    while j < lines.len()
        invariant
            from <= j <= lines@.len(),
            ls == views(lines@),
            child_spot(ls, indent as nat, key@, from as int) == child_spot(
                ls,
                indent as nat,
                key@,
                j as int,
            ),
        decreases lines@.len() - j,
    {
        let l = lines[j].as_slice();
        assert(ls[j as int] == l@);
        if !is_blank_line(l) && !is_comment_line(l) {
            match key_line_of(l) {
                None => {},
                Some((ind, a, b)) => {
                    if ind <= indent {
                        return SpotAt::Before(j);
                    }
                    if same_range(l, a, b, key) {
                        return SpotAt::At(j);
                    }
                },
            }
        }
        j = j + 1;
    }
    SpotAt::End
}

/// Whether `l` is a `section` header, and its indentation if so.
fn section_header(l: &[char], section: &[char]) -> (r: Option<u128>)
    ensures
        match r {
            Some(ind) => is_section(l@, section@) && indent_of(l@) == ind,
            None => !is_section(l@, section@),
        },
{
    if is_comment_line(l) {
        return None;
    }
    match key_line_of(l) {
        None => None,
        Some((ind, a, b)) => if same_range(l, a, b, section) {
            Some(ind)
        } else {
            None
        },
    }
}

/// The scalar stored under `key` in the block of `section`.
pub fn nested_yaml_scalar_value(content: &str, section: &str, key: &str) -> (r: Option<String>)
    ensures
        opt_view(r) == nested_value(content@, section@, key@),
{
    let chars = chars_of(content);
    let lines = lines_of(chars.as_slice());
    let sec = chars_of(section);
    let k = chars_of(key);
    let ghost ls = views(lines@);
    let mut i: usize = 0;
    while i < lines.len()
        invariant
            i <= lines@.len(),
            ls == views(lines@),
            ls == text_lines(content@),
            sec@ == section@,
            k@ == key@,
            nested_from(ls, section@, key@, 0) == nested_from(ls, section@, key@, i as int),
        decreases lines@.len() - i,
    {
        assert(ls[i as int] == lines@[i as int]@);
        match section_header(lines[i].as_slice(), sec.as_slice()) {
            None => {},
            Some(ind) => {
                match child_spot_of(&lines, ind, k.as_slice(), i + 1) {
                    SpotAt::At(j) => {
                        assert(ls[j as int] == lines@[j as int]@);
                        let t = trimmed(lines[j].as_slice(), &CharClass::Whitespace);
                        return match scalar_value_of(t.as_slice(), k.as_slice()) {
                            Some(v) => Some(string_of(v.as_slice())),
                            None => None,
                        };
                    },
                    _ => {},
                }
            },
        }
        i = i + 1;
    }
    None
}

/// The lines with `\n` between them, and one more after the last when `trailing`.
pub open spec fn finished(lines: Seq<Seq<char>>, trailing: bool) -> Seq<char> {
    if trailing {
        join_lines(lines).push('\n')
    } else {
        join_lines(lines)
    }
}

/// Joins lines with `\n`, ending with one more `\n` when `trailing_newline`.
pub fn finish_lines(lines: Vec<String>, trailing_newline: bool) -> (r: String)
    ensures
        r@ == finished(string_views(lines@), trailing_newline),
{
    let ghost ls = string_views(lines@);
    let mut content = String::new();
    let mut i: usize = 0;
    assert(ls.take(0) == Seq::<Seq<char>>::empty());
    while i < lines.len()
        invariant
            i <= lines@.len(),
            ls == string_views(lines@),
            content@ == join_lines(ls.take(i as int)),
        decreases lines@.len() - i,
    {
        let ghost before = content@;
        assert(ls[i as int] == lines@[i as int]@);
        if i > 0 {
            push_char(&mut content, '\n');
        }
        content.append(lines[i].as_str());
        proof {
            let t = ls.take(i + 1);
            assert(t.drop_last() == ls.take(i as int));
            assert(t.last() == ls[i as int]);
            if i == 0 {
                assert(t.len() == 1);
                assert(before == Seq::<char>::empty());
                assert(content@ =~= t[0]);
            } else {
                assert(content@ =~= before + seq!['\n'] + ls[i as int]);
            }
        }
        i = i + 1;
    }
    assert(ls.take(lines@.len() as int) == ls);
    if trailing_newline {
        push_char(&mut content, '\n');
    }
    content
}

/// The lines `upsert_nested_yaml_scalar` edits: `\r\n` made `\n`, split at
/// `\n`, without the empty piece after a final line feed.
pub open spec fn edit_lines(content: Seq<char>) -> Seq<Seq<char>> {
    let segs = split_char(replace_crlf(content), '\n');
    if ends_nl(content) && segs.last().len() == 0 {
        segs.drop_last()
    } else {
        segs
    }
}

/// The child line written under the header `header`: the header's
/// indentation, two spaces, `key: value`.
pub open spec fn child_line(header: Seq<char>, key: Seq<char>, value: Seq<char>) -> Seq<char> {
    header.take(lead_in(header, CharClass::Whitespace) as int) + seq![' ', ' '] + key + seq![
        ':',
        ' ',
    ] + value
}

/// `upsert_nested_yaml_scalar` over lines, from line `i` on: the first
/// `section` header gets `key: value` in place of its `key` child, or as a
/// new last child, and no other line changes.
pub open spec fn upsert_from(
    lines: Seq<Seq<char>>,
    section: Seq<char>,
    key: Seq<char>,
    value: Seq<char>,
    i: int,
) -> Seq<Seq<char>>
    decreases lines.len() - i,
{
    if i < 0 || i >= lines.len() {
        lines
    } else if is_section(lines[i], section) {
        let repl = child_line(lines[i], key, value);
        match child_spot(lines, indent_of(lines[i]), key, i + 1) {
            Spot::Before(j) => lines.insert(j, repl),
            Spot::At(j) => lines.update(j, repl),
            Spot::End => lines.push(repl),
        }
    } else {
        upsert_from(lines, section, key, value, i + 1)
    }
}

/// The text `upsert_nested_yaml_scalar` produces.
pub open spec fn upsert_text(content: Seq<char>, section: Seq<char>, key: Seq<char>, value: Seq<char>) -> Seq<char> {
    finished(upsert_from(edit_lines(content), section, key, value, 0), ends_nl(content))
}

fn to_strings(v: &Vec<Vec<char>>) -> (r: Vec<String>)
    ensures
        string_views(r@) == views(v@),
{
    let mut r: Vec<String> = Vec::new();
    let mut i: usize = 0;
    while i < v.len()
        invariant
            i <= v@.len(),
            string_views(r@) == views(v@).take(i as int),
        decreases v@.len() - i,
    {
        let ghost before = string_views(r@);
        r.push(string_of(v[i].as_slice()));
        assert(string_views(r@) =~= before.push(v@[i as int]@));
        assert(views(v@).take(i + 1) =~= views(v@).take(i as int).push(v@[i as int]@));
        i = i + 1;
    }
    assert(views(v@).take(v@.len() as int) == views(v@));
    r
}

/// Sets `key: value` in the block of `section`, replacing an existing `key`
/// child or adding one at the end of the block; the text is otherwise kept.
pub fn upsert_nested_yaml_scalar(content: &str, section: &str, key: &str, value: &str) -> (r: String)
    ensures
        r@ == upsert_text(content@, section@, key@, value@),
{
    let chars = chars_of(content);
    let trailing = chars.len() > 0 && chars[chars.len() - 1] == '\n';
    let flat = replace_crlf_chars(chars.as_slice());
    let mut lines = split_chars(flat.as_slice(), '\n');
    proof {
        lemma_split_char_len(flat@, '\n');
    }
    if trailing && lines[lines.len() - 1].len() == 0 {
        let ghost before = views(lines@);
        lines.pop();
        assert(views(lines@) =~= before.drop_last());
    }
    let ghost ls = views(lines@);
    assert(ls == edit_lines(content@));
    let sec = chars_of(section);
    let k = chars_of(key);
    let v = chars_of(value);
    let mut i: usize = 0;
    while i < lines.len()
        invariant
            i <= lines@.len(),
            ls == views(lines@),
            ls == edit_lines(content@),
            sec@ == section@,
            k@ == key@,
            v@ == value@,
            trailing == ends_nl(content@),
            upsert_from(ls, section@, key@, value@, 0) == upsert_from(
                ls,
                section@,
                key@,
                value@,
                i as int,
            ),
        decreases lines@.len() - i,
    {
        assert(ls[i as int] == lines@[i as int]@);
        match section_header(lines[i].as_slice(), sec.as_slice()) {
            None => {},
            Some(ind) => {
                let header = lines[i].as_slice();
                let n = skip_forward(header, 0, header.len(), &CharClass::Whitespace);
                assert(header@.subrange(0, header@.len() as int) == header@);
                let mut repl = slice_chars(header, 0, n);
                repl.push(' ');
                repl.push(' ');
                let mut j: usize = 0;
                while j < k.len()
                    invariant
                        j <= k@.len(),
                        repl@ == header@.take(n as int) + seq![' ', ' '] + k@.take(j as int),
                    decreases k@.len() - j,
                {
                    repl.push(k[j]);
                    assert(k@.take(j + 1) == k@.take(j as int).push(k@[j as int]));
                    j = j + 1;
                }
                assert(k@.take(k@.len() as int) == k@);
                repl.push(':');
                repl.push(' ');
                let mut j: usize = 0;
                let ghost base = repl@;
                while j < v.len()
                    invariant
                        j <= v@.len(),
                        repl@ == base + v@.take(j as int),
                    decreases v@.len() - j,
                {
                    repl.push(v[j]);
                    assert(v@.take(j + 1) == v@.take(j as int).push(v@[j as int]));
                    j = j + 1;
                }
                assert(v@.take(v@.len() as int) == v@);
                assert(repl@ =~= child_line(ls[i as int], key@, value@));
                let spot = child_spot_of(&lines, ind, k.as_slice(), i + 1);
                let ghost rv = repl@;
                match spot {
                    SpotAt::Before(j) => {
                        lines.insert(j, repl);
                        assert(views(lines@) =~= ls.insert(j as int, rv));
                    },
                    SpotAt::At(j) => {
                        lines.set(j, repl);
                        assert(views(lines@) =~= ls.update(j as int, rv));
                    },
                    SpotAt::End => {
                        lines.push(repl);
                        assert(views(lines@) =~= ls.push(rv));
                    },
                }
                return finish_lines(to_strings(&lines), trailing);
            },
        }
        i = i + 1;
    }
    finish_lines(to_strings(&lines), trailing)
}

/// The section and key that hold the management secret.
pub open spec fn secret_section() -> Seq<char> {
    "remote-management"@
}

pub open spec fn secret_key() -> Seq<char> {
    "secret-key"@
}

/// A usable plain-text management secret stored in the text: present,
/// not blank and not a bcrypt hash; trimmed.
pub open spec fn plain_secret(content: Seq<char>) -> Option<Seq<char>> {
    match nested_value(content, secret_section(), secret_key()) {
        None => None,
        Some(v) => if bcrypt_like(v) {
            None
        } else {
            non_empty(v)
        },
    }
}

pub fn plain_management_secret_from_content(content: &str) -> (r: Option<String>)
    ensures
        opt_view(r) == plain_secret(content@),
{
    let value = match nested_yaml_scalar_value(content, "remote-management", "secret-key") {
        Some(v) => v,
        None => {
            return None;
        },
    };
    if is_bcrypt_hash(value.as_str()) {
        return None;
    }
    non_empty_string(value)
}

/// The text with the management secret set to the empty string `""`.
pub open spec fn cleared_text(content: Seq<char>) -> Seq<char> {
    upsert_text(content, secret_section(), secret_key(), "\"\""@)
}

pub fn clear_management_secret(content: &str) -> (r: String)
    ensures
        r@ == cleared_text(content@),
{
    upsert_nested_yaml_scalar(content, "remote-management", "secret-key", "\"\"")
}

} // verus!
