//! Character-level text primitives with the semantics of the `str`
//! methods the rest of the library relies on (`trim`, `lines`, `split`,
//! `find`, `starts_with`, `contains`, `replace`, `join`).

use vstd::prelude::*;
use vstd::std_specs::iter::IteratorSpec;
use vstd::utf8::encode_utf8;
use vstd::utf8::encode_scalar;

verus! {

broadcast use vstd::string::group_string_axioms;

/// `char::is_whitespace`: the Unicode `White_Space` property.
pub open spec fn is_ws(c: char) -> bool {
    let u = c as u32;
    ||| 9 <= u <= 13
    ||| u == 32
    ||| u == 0x85
    ||| u == 0xa0
    ||| u == 0x1680
    ||| 0x2000 <= u <= 0x200a
    ||| u == 0x2028
    ||| u == 0x2029
    ||| u == 0x202f
    ||| u == 0x205f
    ||| u == 0x3000
}

pub fn is_whitespace(c: char) -> (b: bool)
    ensures
        b == is_ws(c),
{
    let u = c as u32;
    (9 <= u && u <= 13) || u == 32 || u == 0x85 || u == 0xa0 || u == 0x1680 || (0x2000 <= u
        && u <= 0x200a) || u == 0x2028 || u == 0x2029 || u == 0x202f || u == 0x205f || u
        == 0x3000
}

/// A class of characters that a trimming operation removes.
pub enum CharClass {
    Whitespace,
    Is(char),
    IsEither(char, char),
}

pub open spec fn in_class(k: CharClass, c: char) -> bool {
    match k {
        CharClass::Whitespace => is_ws(c),
        CharClass::Is(d) => c == d,
        CharClass::IsEither(d, e) => c == d || c == e,
    }
}

pub fn class_has(k: &CharClass, c: char) -> (b: bool)
    ensures
        b == in_class(*k, c),
{
    match k {
        CharClass::Whitespace => is_whitespace(c),
        CharClass::Is(d) => c == *d,
        CharClass::IsEither(d, e) => c == *d || c == *e,
    }
}

/// Number of characters of class `k` at the start of `s`.
pub open spec fn lead_in(s: Seq<char>, k: CharClass) -> nat
    decreases s.len(),
{
    if s.len() > 0 && in_class(k, s[0]) {
        1 + lead_in(s.drop_first(), k)
    } else {
        0
    }
}

/// Number of characters of class `k` at the end of `s`.
pub open spec fn trail_in(s: Seq<char>, k: CharClass) -> nat
    decreases s.len(),
{
    if s.len() > 0 && in_class(k, s.last()) {
        1 + trail_in(s.drop_last(), k)
    } else {
        0
    }
}

/// `str::trim_start_matches` for a class of characters.
pub open spec fn trim_start_in(s: Seq<char>, k: CharClass) -> Seq<char> {
    s.skip(lead_in(s, k) as int)
}

/// `str::trim_end_matches` for a class of characters.
pub open spec fn trim_end_in(s: Seq<char>, k: CharClass) -> Seq<char> {
    s.take(s.len() - trail_in(s, k))
}

/// `str::trim_matches` for a class of characters.
pub open spec fn trim_in(s: Seq<char>, k: CharClass) -> Seq<char> {
    trim_end_in(trim_start_in(s, k), k)
}

/// `str::trim_start`.
pub open spec fn trim_start(s: Seq<char>) -> Seq<char> {
    trim_start_in(s, CharClass::Whitespace)
}

/// `str::trim_end`.
pub open spec fn trim_end(s: Seq<char>) -> Seq<char> {
    trim_end_in(s, CharClass::Whitespace)
}

/// `str::trim`.
pub open spec fn trim(s: Seq<char>) -> Seq<char> {
    trim_in(s, CharClass::Whitespace)
}

pub proof fn lemma_lead_in(s: Seq<char>, k: CharClass)
    ensures
        lead_in(s, k) <= s.len(),
        forall|i: int| 0 <= i < lead_in(s, k) ==> in_class(k, #[trigger] s[i]),
        lead_in(s, k) < s.len() ==> !in_class(k, s[lead_in(s, k) as int]),
    decreases s.len(),
{
    if s.len() > 0 && in_class(k, s[0]) {
        lemma_lead_in(s.drop_first(), k);
        assert forall|i: int| 0 <= i < lead_in(s, k) implies in_class(k, #[trigger] s[i]) by {
            if i > 0 {
                assert(s[i] == s.drop_first()[i - 1]);
            }
        }
    }
}

pub proof fn lemma_trail_in(s: Seq<char>, k: CharClass)
    ensures
        trail_in(s, k) <= s.len(),
        forall|i: int| s.len() - trail_in(s, k) <= i < s.len() ==> in_class(k, #[trigger] s[i]),
        trail_in(s, k) < s.len() ==> !in_class(k, s[s.len() - trail_in(s, k) - 1]),
    decreases s.len(),
{
    if s.len() > 0 && in_class(k, s.last()) {
        lemma_trail_in(s.drop_last(), k);
        assert forall|i: int| s.len() - trail_in(s, k) <= i < s.len() implies in_class(
            k,
            #[trigger] s[i],
        ) by {
            if i < s.len() - 1 {
                assert(s[i] == s.drop_last()[i]);
            }
        }
    }
}

/// `lead_in` is the position of the first character outside the class.
pub proof fn lemma_lead_in_at(s: Seq<char>, k: CharClass, n: int)
    requires
        0 <= n <= s.len(),
        forall|i: int| 0 <= i < n ==> in_class(k, #[trigger] s[i]),
        n < s.len() ==> !in_class(k, s[n]),
    ensures
        lead_in(s, k) == n,
    decreases n,
{
    if n > 0 {
        assert forall|i: int| 0 <= i < n - 1 implies in_class(k, #[trigger] s.drop_first()[i]) by {
            assert(s.drop_first()[i] == s[i + 1]);
        }
        lemma_lead_in_at(s.drop_first(), k, n - 1);
    }
}

/// `trail_in` is the distance from the end of the last character outside the class.
pub proof fn lemma_trail_in_at(s: Seq<char>, k: CharClass, n: int)
    requires
        0 <= n <= s.len(),
        forall|i: int| s.len() - n <= i < s.len() ==> in_class(k, #[trigger] s[i]),
        n < s.len() ==> !in_class(k, s[s.len() - n - 1]),
    ensures
        trail_in(s, k) == n,
    decreases n,
{
    if n > 0 {
        let t = s.drop_last();
        assert forall|i: int| t.len() - (n - 1) <= i < t.len() implies in_class(
            k,
            #[trigger] t[i],
        ) by {
            assert(t[i] == s[i]);
        }
        if n - 1 < t.len() {
            assert(t[t.len() - (n - 1) - 1] == s[s.len() - n - 1]);
        }
        lemma_trail_in_at(t, k, n - 1);
    }
}

/// Index of the first character of `s[from..to]` outside class `k`, or `to`.
pub fn skip_forward(s: &[char], from: usize, to: usize, k: &CharClass) -> (n: usize)
    requires
        from <= to <= s@.len(),
    ensures
        from <= n <= to,
        n - from == lead_in(s@.subrange(from as int, to as int), *k),
{
    let mut i = from;
    while i < to && class_has(k, s[i])
        invariant
            from <= i <= to <= s@.len(),
            forall|j: int| from <= j < i ==> in_class(*k, #[trigger] s@[j]),
        decreases to - i,
    {
        i = i + 1;
    }
    let ghost t = s@.subrange(from as int, to as int);
    proof {
        assert forall|j: int| 0 <= j < i - from implies in_class(*k, #[trigger] t[j]) by {
            assert(t[j] == s@[from + j]);
        }
        if i < to {
            assert(t[i - from] == s@[i as int]);
        }
        lemma_lead_in_at(t, *k, i - from);
    }
    i
}

/// Index just past the last character of `s[from..to]` outside class `k`, or `from`.
pub fn skip_backward(s: &[char], from: usize, to: usize, k: &CharClass) -> (n: usize)
    requires
        from <= to <= s@.len(),
    ensures
        from <= n <= to,
        to - n == trail_in(s@.subrange(from as int, to as int), *k),
{
    let mut i = to;
    while i > from && class_has(k, s[i - 1])
        invariant
            from <= i <= to <= s@.len(),
            forall|j: int| i <= j < to ==> in_class(*k, #[trigger] s@[j]),
        decreases i - from,
    {
        i = i - 1;
    }
    let ghost t = s@.subrange(from as int, to as int);
    proof {
        assert forall|j: int| t.len() - (to - i) <= j < t.len() implies in_class(
            *k,
            #[trigger] t[j],
        ) by {
            assert(t[j] == s@[from + j]);
        }
        if i > from {
            assert(t[t.len() - (to - i) - 1] == s@[i - 1]);
        }
        lemma_trail_in_at(t, *k, to - i);
    }
    i
}

/// Bounds `(a, b)` such that `s[a..b]` is `s` trimmed of class `k` at both ends.
pub fn trim_bounds(s: &[char], k: &CharClass) -> (r: (usize, usize))
    ensures
        r.0 <= r.1 <= s@.len(),
        s@.subrange(r.0 as int, r.1 as int) == trim_in(s@, *k),
        s@.skip(r.0 as int) == trim_start_in(s@, *k),
{
    let a = skip_forward(s, 0, s.len(), k);
    let b = skip_backward(s, a, s.len(), k);
    proof {
        assert(s@.subrange(0, s@.len() as int) == s@);
        assert(s@.subrange(a as int, s@.len() as int) == s@.skip(a as int));
        assert(s@.subrange(a as int, b as int) == s@.skip(a as int).take(b - a));
    }
    (a, b)
}

/// Copies `s[from..to]` into a new vector.
pub fn slice_chars(s: &[char], from: usize, to: usize) -> (r: Vec<char>)
    requires
        from <= to <= s@.len(),
    ensures
        r@ == s@.subrange(from as int, to as int),
{
    let mut r: Vec<char> = Vec::new();
    let mut i = from;
    while i < to
        invariant
            from <= i <= to <= s@.len(),
            r@ == s@.subrange(from as int, i as int),
        decreases to - i,
    {
        r.push(s[i]);
        i = i + 1;
    }
    r
}

/// `s` trimmed of class `k` at both ends.
pub fn trimmed(s: &[char], k: &CharClass) -> (r: Vec<char>)
    ensures
        r@ == trim_in(s@, *k),
{
    let (a, b) = trim_bounds(s, k);
    slice_chars(s, a, b)
}

/// The characters of a string slice.
pub fn chars_of(s: &str) -> (r: Vec<char>)
    ensures
        r@ == s@,
{
    let mut r: Vec<char> = Vec::new();
    let mut it = s.chars();
    loop
        invariant
            r@ + it.remaining() == s@,
            it.decrease() is Some,
        ensures
            r@ == s@,
        decreases it.decrease()->0,
    {
        match it.next() {
            Some(c) => {
                r.push(c);
            },
            None => {
                break ;
            },
        }
    }
    r
}

/// `String::push`: afterwards the string holds its old characters followed by `c`.
#[verifier::external_body]
pub(crate) fn push_char(s: &mut String, c: char)
    ensures
        final(s)@ == old(s)@.push(c),
{
    s.push(c);
}

/// A string holding the given characters.
pub fn string_of(chars: &[char]) -> (r: String)
    ensures
        r@ == chars@,
{
    let mut r = String::new();
    let mut i: usize = 0;
    while i < chars.len()
        invariant
            i <= chars@.len(),
            r@ == chars@.take(i as int),
        decreases chars@.len() - i,
    {
        push_char(&mut r, chars[i]);
        assert(chars@.take(i + 1) == chars@.take(i as int).push(chars@[i as int]));
        i = i + 1;
    }
    assert(chars@.take(chars@.len() as int) == chars@);
    r
}

/// Appends the given characters to a string.
pub fn push_chars(r: &mut String, chars: &[char])
    ensures
        final(r)@ == old(r)@ + chars@,
{
    let mut i: usize = 0;
    while i < chars.len()
        invariant
            i <= chars@.len(),
            r@ == old(r)@ + chars@.take(i as int),
        decreases chars@.len() - i,
    {
        push_char(r, chars[i]);
        assert(chars@.take(i + 1) == chars@.take(i as int).push(chars@[i as int]));
        i = i + 1;
    }
    assert(chars@.take(chars@.len() as int) == chars@);
}

/// Index of the first occurrence of `c` in `s` (`str::find` with a `char`).
pub open spec fn find_char(s: Seq<char>, c: char) -> Option<int>
    decreases s.len(),
{
    if s.len() == 0 {
        None
    } else if s[0] == c {
        Some(0)
    } else {
        match find_char(s.drop_first(), c) {
            Some(i) => Some(i + 1),
            None => None,
        }
    }
}

/// `find_char` is the first position holding `c`.
pub proof fn lemma_find_char(s: Seq<char>, c: char)
    ensures
        find_char(s, c) matches Some(i) ==> 0 <= i < s.len() && s[i] == c && forall|j: int|
            0 <= j < i ==> #[trigger] s[j] != c,
        find_char(s, c) is None ==> forall|j: int| 0 <= j < s.len() ==> #[trigger] s[j] != c,
    decreases s.len(),
{
    if s.len() > 0 && s[0] != c {
        lemma_find_char(s.drop_first(), c);
        assert forall|j: int| 0 < j < s.len() implies #[trigger] s[j] == s.drop_first()[j - 1] by {}
    }
}

/// Index of the first `c` in `s[from..]`, relative to `from`.
pub fn find_char_from(s: &[char], from: usize, c: char) -> (r: Option<usize>)
    requires
        from <= s@.len(),
    ensures
        match r {
            Some(i) => find_char(s@.skip(from as int), c) == Some(i as int) && from + i < s.len(),
            None => find_char(s@.skip(from as int), c) is None,
        },
{
    let ghost t = s@.skip(from as int);
    let mut i = from;
    while i < s.len()
        invariant
            from <= i <= s@.len(),
            t == s@.skip(from as int),
            forall|j: int| from <= j < i ==> #[trigger] s@[j] != c,
        decreases s@.len() - i,
    {
        if s[i] == c {
            proof {
                lemma_find_char(t, c);
                if find_char(t, c) != Some(i - from) {
                    match find_char(t, c) {
                        Some(k) => {
                            if k < i - from {
                                assert(t[k] == s@[from + k]);
                            } else {
                                assert(t[i - from] == s@[i as int]);
                            }
                        },
                        None => {
                            assert(t[i - from] == s@[i as int]);
                        },
                    }
                }
            }
            return Some(i - from);
        }
        i = i + 1;
    }
    proof {
        lemma_find_char(t, c);
        if let Some(k) = find_char(t, c) {
            assert(t[k] == s@[from + k]);
        }
    }
    None
}

/// `s` begins with `p`.
pub open spec fn starts_with(s: Seq<char>, p: Seq<char>) -> bool {
    p.len() <= s.len() && s.take(p.len() as int) == p
}

pub fn has_prefix(s: &[char], p: &[char]) -> (b: bool)
    ensures
        b == starts_with(s@, p@),
{
    if p.len() > s.len() {
        return false;
    }
    let mut i: usize = 0;
    while i < p.len()
        invariant
            p@.len() <= s@.len(),
            i <= p@.len(),
            forall|j: int| 0 <= j < i ==> s@[j] == p@[j],
        decreases p@.len() - i,
    {
        if s[i] != p[i] {
            assert(s@.take(p@.len() as int)[i as int] != p@[i as int]);
            return false;
        }
        i = i + 1;
    }
    assert(s@.take(p@.len() as int) =~= p@);
    true
}

/// `n` occurs in `h` as a contiguous piece.
pub open spec fn contains_seq(h: Seq<char>, n: Seq<char>) -> bool {
    exists|i: int| 0 <= i <= h.len() - n.len() && #[trigger] h.subrange(i, i + n.len()) == n
}

pub fn contains_chars(h: &[char], n: &[char]) -> (b: bool)
    ensures
        b == contains_seq(h@, n@),
{
    if n.len() > h.len() {
        return false;
    }
    let last = h.len() - n.len();
    let mut i: usize = 0;
    while i <= last
        invariant
            last == h@.len() - n@.len(),
            i <= last + 1,
            forall|k: int| 0 <= k < i ==> #[trigger] h@.subrange(k, k + n@.len()) != n@,
        decreases last + 1 - i,
    {
        let mut j: usize = 0;
        let mut same = true;
        while j < n.len()
            invariant
                i <= last,
                last == h@.len() - n@.len(),
                n@.len() <= h@.len(),
                j <= n@.len(),
                same == forall|m: int| 0 <= m < j ==> h@[i + m] == n@[m],
            decreases n@.len() - j,
        {
            assert(i + j < h.len());
            if h[i + j] != n[j] {
                same = false;
            }
            j = j + 1;
        }
        if same {
            assert(h@.subrange(i as int, i + n@.len()) =~= n@);
            return true;
        }
        proof {
            let m = choose|m: int| 0 <= m < n@.len() && h@[i + m] != n@[m];
            assert(h@.subrange(i as int, i + n@.len())[m] != n@[m]);
        }
        if i == last {
            return false;
        }
        i = i + 1;
    }
    false
}

/// The UTF-8 length in bytes of a character sequence (`str::len`).
pub open spec fn byte_len(s: Seq<char>) -> nat {
    encode_utf8(s).len()
}

pub proof fn lemma_encode_concat(a: Seq<char>, b: Seq<char>)
    ensures
        encode_utf8(a + b) == encode_utf8(a) + encode_utf8(b),
    decreases a.len(),
{
    if a.len() > 0 {
        assert((a + b).drop_first() == a.drop_first() + b);
        assert((a + b)[0] == a[0]);
        lemma_encode_concat(a.drop_first(), b);
    } else {
        assert(a + b == b);
    }
}

/// Width of one character in UTF-8 (`char::len_utf8`).
pub fn utf8_width(c: char) -> (w: usize)
    ensures
        w == encode_scalar(c as u32).len(),
        1 <= w <= 4,
{
    proof {
        broadcast use vstd::utf8::char_is_scalar;
        assert(vstd::utf8::is_scalar(c as u32));
    }
    let u = c as u32;
    if u <= 0x7f {
        1
    } else if u <= 0x7ff {
        2
    } else if u <= 0xffff {
        3
    } else {
        4
    }
}

/// UTF-8 length in bytes of `s[..n]`.
pub fn byte_len_prefix(s: &[char], n: usize) -> (r: u128)
    requires
        n <= s@.len(),
    ensures
        r == byte_len(s@.take(n as int)),
        r <= 4 * n,
{
    let mut r: u128 = 0;
    let mut i: usize = 0;
    assert(s@.take(0) == Seq::<char>::empty());
    while i < n
        invariant
            i <= n <= s@.len(),
            r == byte_len(s@.take(i as int)),
            r <= 4 * i,
        decreases n - i,
    {
        let w = utf8_width(s[i]);
        proof {
            let a = s@.take(i as int);
            let b = seq![s@[i as int]];
            assert(s@.take(i + 1) == a + b);
            lemma_encode_concat(a, b);
            assert(b.drop_first() == Seq::<char>::empty());
            assert(encode_utf8(b) == encode_scalar(s@[i as int] as u32) + encode_utf8(
                Seq::<char>::empty(),
            ));
        }
        r = r + w as u128;
        i = i + 1;
    }
    r
}

/// `a` and `b` hold the same characters.
pub fn same_chars(a: &[char], b: &[char]) -> (r: bool)
    ensures
        r == (a@ == b@),
{
    if a.len() != b.len() {
        return false;
    }
    let mut i: usize = 0;
    while i < a.len()
        invariant
            a@.len() == b@.len(),
            i <= a@.len(),
            forall|j: int| 0 <= j < i ==> a@[j] == b@[j],
        decreases a@.len() - i,
    {
        if a[i] != b[i] {
            return false;
        }
        i = i + 1;
    }
    assert(a@ =~= b@);
    true
}

/// `s[from..to]` holds the same characters as `b`.
pub fn same_range(s: &[char], from: usize, to: usize, b: &[char]) -> (r: bool)
    requires
        from <= to <= s@.len(),
    ensures
        r == (s@.subrange(from as int, to as int) == b@),
{
    if to - from != b.len() {
        return false;
    }
    let mut i: usize = 0;
    while i < b.len()
        invariant
            to - from == b@.len(),
            from <= to <= s@.len(),
            i <= b@.len(),
            forall|j: int| 0 <= j < i ==> s@[from + j] == b@[j],
        decreases b@.len() - i,
    {
        if s[from + i] != b[i] {
            assert(s@.subrange(from as int, to as int)[i as int] != b@[i as int]);
            return false;
        }
        i = i + 1;
    }
    assert(s@.subrange(from as int, to as int) =~= b@);
    true
}

/// The view of an optional string.
pub open spec fn opt_view(o: Option<String>) -> Option<Seq<char>> {
    match o {
        Some(s) => Some(s@),
        None => None,
    }
}

/// The views of a sequence of strings.
pub open spec fn string_views(v: Seq<String>) -> Seq<Seq<char>> {
    v.map_values(|s: String| s@)
}

/// Pieces of `s` between occurrences of `c` (`str::split` with a `char`).
pub open spec fn split_char(s: Seq<char>, c: char) -> Seq<Seq<char>>
    decreases s.len(),
{
    if s.len() == 0 {
        seq![Seq::empty()]
    } else {
        let init = split_char(s.drop_last(), c);
        if s.last() == c {
            init.push(Seq::empty())
        } else {
            init.update(init.len() - 1, init.last().push(s.last()))
        }
    }
}

pub proof fn lemma_split_char_len(s: Seq<char>, c: char)
    ensures
        split_char(s, c).len() >= 1,
    decreases s.len(),
{
    if s.len() > 0 {
        lemma_split_char_len(s.drop_last(), c);
    }
}

/// The views of a vector of character vectors.
pub open spec fn views(v: Seq<Vec<char>>) -> Seq<Seq<char>> {
    v.map_values(|l: Vec<char>| l@)
}

/// Splits `s` at every occurrence of `c`.
pub fn split_chars(s: &[char], c: char) -> (r: Vec<Vec<char>>)
    ensures
        views(r@) == split_char(s@, c),
{
    let mut r: Vec<Vec<char>> = Vec::new();
    let mut cur: Vec<char> = Vec::new();
    let mut i: usize = 0;
    assert(s@.take(0) == Seq::<char>::empty());
    assert(views(r@).push(cur@) =~= split_char(s@.take(0), c));
    while i < s.len()
        invariant
            i <= s@.len(),
            views(r@).push(cur@) == split_char(s@.take(i as int), c),
        decreases s@.len() - i,
    {
        let ghost before = views(r@);
        let ghost pre = s@.take(i as int);
        assert(s@.take(i + 1).drop_last() == pre);
        assert(s@.take(i + 1).last() == s@[i as int]);
        if s[i] == c {
            r.push(cur);
            cur = Vec::new();
            assert(views(r@) =~= before.push(split_char(pre, c).last()));
            assert(views(r@).push(cur@) =~= split_char(s@.take(i + 1), c));
        } else {
            let ghost old_cur = cur@;
            cur.push(s[i]);
            assert(views(r@).push(cur@) =~= before.push(old_cur).update(
                before.len() as int,
                old_cur.push(s@[i as int]),
            ));
        }
        i = i + 1;
    }
    assert(s@.take(s@.len() as int) == s@);
    let ghost before = views(r@);
    r.push(cur);
    assert(views(r@) =~= before.push(cur@));
    r
}

/// A line with one trailing carriage return removed, if it has one.
pub open spec fn strip_cr(l: Seq<char>) -> Seq<char> {
    if l.len() > 0 && l.last() == '\r' {
        l.drop_last()
    } else {
        l
    }
}

/// `str::lines`: the pieces between `\n`, each without the `\r` of a `\r\n`
/// ending, and without the empty piece after a final line ending.
pub open spec fn text_lines(s: Seq<char>) -> Seq<Seq<char>> {
    let segs = split_char(s, '\n');
    let init = segs.drop_last().map_values(|l: Seq<char>| strip_cr(l));
    if segs.last().len() == 0 {
        init
    } else {
        init.push(segs.last())
    }
}

/// The lines of `s` as `str::lines` yields them.
pub fn lines_of(s: &[char]) -> (r: Vec<Vec<char>>)
    ensures
        views(r@) == text_lines(s@),
{
    let segs = split_chars(s, '\n');
    proof {
        lemma_split_char_len(s@, '\n');
    }
    let n = segs.len();
    let ghost sv = split_char(s@, '\n');
    let mut r: Vec<Vec<char>> = Vec::new();
    let mut i: usize = 0;
    while i + 1 < n
        invariant
            n == segs@.len(),
            n >= 1,
            views(segs@) == sv,
            i < n,
            views(r@) == sv.take(i as int).map_values(|l: Seq<char>| strip_cr(l)),
        decreases n - i,
    {
        let seg = &segs[i];
        let len = seg.len();
        let line = if len > 0 && seg[len - 1] == '\r' {
            slice_chars(seg.as_slice(), 0, len - 1)
        } else {
            slice_chars(seg.as_slice(), 0, len)
        };
        proof {
            assert(sv[i as int] == seg@);
            assert(seg@.subrange(0, len as int) == seg@);
            assert(seg@.subrange(0, len - 1) == seg@.drop_last());
        }
        let ghost before = views(r@);
        r.push(line);
        assert(views(r@) =~= before.push(line@));
        assert(sv.take(i + 1).map_values(|l: Seq<char>| strip_cr(l)) =~= sv.take(
            i as int,
        ).map_values(|l: Seq<char>| strip_cr(l)).push(strip_cr(sv[i as int])));
        i = i + 1;
    }
    assert(sv.take(i as int) == sv.drop_last());
    let last = &segs[n - 1];
    assert(sv.last() == last@);
    if last.len() > 0 {
        let copy = slice_chars(last.as_slice(), 0, last.len());
        assert(last@.subrange(0, last@.len() as int) == last@);
        let ghost before = views(r@);
        r.push(copy);
        assert(views(r@) =~= before.push(copy@));
    }
    r
}

/// Every `\r` directly followed by `\n` removed (`str::replace("\r\n", "\n")`).
pub open spec fn replace_crlf(s: Seq<char>) -> Seq<char>
    decreases s.len(),
{
    if s.len() == 0 {
        s
    } else if s.len() >= 2 && s.last() == '\n' && s[s.len() - 2] == '\r' {
        replace_crlf(s.take(s.len() - 2)).push('\n')
    } else {
        replace_crlf(s.drop_last()).push(s.last())
    }
}

pub fn replace_crlf_chars(s: &[char]) -> (r: Vec<char>)
    ensures
        r@ == replace_crlf(s@),
{
    let mut r: Vec<char> = Vec::new();
    let mut i: usize = 0;
    assert(s@.take(0) == Seq::<char>::empty());
    while i < s.len()
        invariant
            i <= s@.len(),
            r@ == replace_crlf(s@.take(i as int)),
            0 < i < s@.len() ==> !(s@[i - 1] == '\r' && s@[i as int] == '\n'),
        decreases s@.len() - i,
    {
        if s[i] == '\r' && i + 1 < s.len() && s[i + 1] == '\n' {
            let ghost t = s@.take(i + 2);
            assert(t.take(t.len() - 2) == s@.take(i as int));
            assert(t.last() == '\n' && t[t.len() - 2] == '\r');
            r.push('\n');
            i = i + 2;
        } else {
            let ghost t = s@.take(i + 1);
            assert(t.drop_last() == s@.take(i as int));
            assert(t.last() == s@[i as int]);
            proof {
                if t.len() >= 2 {
                    assert(t[t.len() - 2] == s@[i - 1]);
                }
            }
            r.push(s[i]);
            i = i + 1;
        }
    }
    assert(s@.take(s@.len() as int) == s@);
    r
}

/// Lines joined with `\n` between them (`[String]::join("\n")`).
pub open spec fn join_lines(ls: Seq<Seq<char>>) -> Seq<char>
    decreases ls.len(),
{
    if ls.len() == 0 {
        Seq::empty()
    } else if ls.len() == 1 {
        ls[0]
    } else {
        join_lines(ls.drop_last()) + seq!['\n'] + ls.last()
    }
}

/// Appending a character other than `x` does not move the first `x`.
pub proof fn lemma_find_char_push(s: Seq<char>, c: char, x: char)
    requires
        c != x,
    ensures
        find_char(s.push(c), x) == find_char(s, x),
    decreases s.len(),
{
    if s.len() == 0 {
        assert(s.push(c).drop_first() == Seq::<char>::empty());
    } else {
        assert(s.push(c)[0] == s[0]);
        assert(s.push(c).drop_first() == s.drop_first().push(c));
        lemma_find_char_push(s.drop_first(), c, x);
    }
}

/// A prefix without `x` shifts the first `x` by its length.
pub proof fn lemma_find_char_after(a: Seq<char>, b: Seq<char>, x: char)
    requires
        forall|i: int| 0 <= i < a.len() ==> #[trigger] a[i] != x,
    ensures
        find_char(a + b, x) == match find_char(b, x) {
            Some(i) => Some(i + a.len()),
            None => None::<int>,
        },
    decreases a.len(),
{
    if a.len() == 0 {
        assert(a + b == b);
    } else {
        assert((a + b)[0] == a[0]);
        assert((a + b).drop_first() == a.drop_first() + b);
        assert forall|i: int| 0 <= i < a.drop_first().len() implies #[trigger] a.drop_first()[i]
            != x by {
            assert(a.drop_first()[i] == a[i + 1]);
        }
        lemma_find_char_after(a.drop_first(), b, x);
    }
}

/// Appending a class character adds one to `trail_in`.
pub proof fn lemma_trim_end_push(x: Seq<char>, c: char, k: CharClass)
    requires
        in_class(k, c),
    ensures
        trim_end_in(x.push(c), k) == trim_end_in(x, k),
{
    lemma_trail_in(x, k);
    assert(x.push(c).drop_last() == x);
    assert(x.push(c).take(x.len() - trail_in(x, k)) == x.take(x.len() - trail_in(x, k)));
}

/// Appending keeps `lead_in` when a non-class character comes first.
pub proof fn lemma_lead_in_push(x: Seq<char>, c: char, k: CharClass)
    requires
        lead_in(x, k) < x.len(),
    ensures
        lead_in(x.push(c), k) == lead_in(x, k),
{
    lemma_lead_in(x, k);
    let n = lead_in(x, k) as int;
    assert forall|i: int| 0 <= i < n implies in_class(k, #[trigger] x.push(c)[i]) by {
        assert(x.push(c)[i] == x[i]);
    }
    assert(x.push(c)[n] == x[n]);
    lemma_lead_in_at(x.push(c), k, n);
}

/// Appending a class character to an all-class sequence keeps it all-class.
pub proof fn lemma_lead_in_push_all(x: Seq<char>, c: char, k: CharClass)
    requires
        lead_in(x, k) == x.len(),
        in_class(k, c),
    ensures
        lead_in(x.push(c), k) == x.len() + 1,
{
    lemma_lead_in(x, k);
    assert forall|i: int| 0 <= i < x.len() + 1 implies in_class(k, #[trigger] x.push(c)[i]) by {
        if i < x.len() {
            assert(x.push(c)[i] == x[i]);
        }
    }
    lemma_lead_in_at(x.push(c), k, x.len() + 1 as int);
}

/// `trim_end` then `trim` is `trim`.
pub proof fn lemma_trim_of_trim_end(x: Seq<char>)
    ensures
        trim(trim_end(x)) == trim(x),
{
    let k = CharClass::Whitespace;
    lemma_lead_in(x, k);
    lemma_trail_in(x, k);
    let a = lead_in(x, k) as int;
    let b = trail_in(x, k) as int;
    let y = trim_end(x);
    if a == x.len() {
        // all whitespace: both sides are empty
        assert forall|i: int| 0 <= i < y.len() implies in_class(k, #[trigger] y[i]) by {
            assert(y[i] == x[i]);
        }
        lemma_lead_in_at(y, k, y.len() as int);
        assert(trim_start(y) == Seq::<char>::empty());
        lemma_trail_in_at(Seq::<char>::empty(), k, 0);
        assert(x.skip(a) == Seq::<char>::empty());
    } else {
        assert(a < x.len() - b) by {
            if a >= x.len() - b {
                assert(in_class(k, x[a]));
            }
        }
        assert forall|i: int| 0 <= i < a implies in_class(k, #[trigger] y[i]) by {
            assert(y[i] == x[i]);
        }
        assert(y[a] == x[a]);
        lemma_lead_in_at(y, k, a);
        let core = x.subrange(a, x.len() - b);
        assert(trim_start(y) == core);
        assert(core[core.len() - 1] == x[x.len() - b - 1]);
        lemma_trail_in_at(core, k, 0);
        assert(core.take(core.len() as int) == core);
        let z = x.skip(a);
        assert forall|i: int| z.len() - b <= i < z.len() implies in_class(k, #[trigger] z[i]) by {
            assert(z[i] == x[a + i]);
        }
        assert(z[z.len() - b - 1] == x[x.len() - b - 1]);
        lemma_trail_in_at(z, k, b);
        assert(z.take(z.len() - b) == core);
    }
}

/// A leading whitespace character does not change `trim`.
pub proof fn lemma_trim_after_ws(c: char, y: Seq<char>)
    requires
        is_ws(c),
    ensures
        trim(seq![c] + y) == trim(y),
{
    let x = seq![c] + y;
    assert(x[0] == c);
    assert(x.drop_first() == y);
    assert(lead_in(x, CharClass::Whitespace) == 1 + lead_in(y, CharClass::Whitespace));
    lemma_lead_in(y, CharClass::Whitespace);
    assert(x.skip(1 + lead_in(y, CharClass::Whitespace) as int) == y.skip(
        lead_in(y, CharClass::Whitespace) as int,
    ));
}

/// Splitting at `c` across a `c` joins the pieces of both sides.
pub proof fn lemma_split_char_concat(a: Seq<char>, b: Seq<char>, c: char)
    ensures
        split_char(a.push(c) + b, c) == split_char(a, c) + split_char(b, c),
    decreases b.len(),
{
    lemma_split_char_len(a, c);
    if b.len() == 0 {
        assert(a.push(c) + b == a.push(c));
        assert(a.push(c).drop_last() == a);
    } else {
        let s = a.push(c) + b;
        assert(s.drop_last() == a.push(c) + b.drop_last());
        assert(s.last() == b.last());
        lemma_split_char_concat(a, b.drop_last(), c);
        lemma_split_char_len(b.drop_last(), c);
        let sa = split_char(a, c);
        let sb = split_char(b.drop_last(), c);
        if b.last() == c {
            assert((sa + sb).push(Seq::empty()) == sa + sb.push(Seq::empty()));
        } else {
            assert((sa + sb).update((sa + sb).len() - 1, (sa + sb).last().push(b.last())) == sa
                + sb.update(sb.len() - 1, sb.last().push(b.last())));
        }
    }
}

/// A sequence without `c` is one piece.
pub proof fn lemma_split_char_single(s: Seq<char>, c: char)
    requires
        find_char(s, c) is None,
    ensures
        split_char(s, c) == seq![s],
    decreases s.len(),
{
    lemma_find_char(s, c);
    if s.len() > 0 {
        lemma_find_char_push(s.drop_last(), s.last(), c);
        assert(s.drop_last().push(s.last()) == s);
        lemma_split_char_single(s.drop_last(), c);
        assert(seq![s.drop_last()].update(0, s.drop_last().push(s.last())) == seq![s]);
    } else {
        assert(s == Seq::<char>::empty());
    }
}

/// Splitting the join of pieces without `\n` gives back the pieces.
pub proof fn lemma_split_join(ls: Seq<Seq<char>>)
    requires
        ls.len() >= 1,
        forall|j: int| 0 <= j < ls.len() ==> find_char(#[trigger] ls[j], '\n') is None,
    ensures
        split_char(join_lines(ls), '\n') == ls,
    decreases ls.len(),
{
    if ls.len() == 1 {
        lemma_split_char_single(ls[0], '\n');
        assert(seq![ls[0]] == ls);
    } else {
        let init = ls.drop_last();
        assert forall|j: int| 0 <= j < init.len() implies find_char(#[trigger] init[j], '\n') is None by {
            assert(init[j] == ls[j]);
        }
        lemma_split_join(init);
        assert(join_lines(ls) == join_lines(init).push('\n') + ls.last());
        lemma_split_char_concat(join_lines(init), ls.last(), '\n');
        lemma_split_char_single(ls.last(), '\n');
        assert(init + seq![ls.last()] == ls);
    }
}

/// No piece of a split at `c` holds `c`.
pub proof fn lemma_split_char_pieces(s: Seq<char>, c: char)
    ensures
        forall|j: int| 0 <= j < split_char(s, c).len() ==> find_char(#[trigger] split_char(s, c)[j], c) is None,
    decreases s.len(),
{
    if s.len() > 0 {
        lemma_split_char_pieces(s.drop_last(), c);
        lemma_split_char_len(s.drop_last(), c);
        let init = split_char(s.drop_last(), c);
        if s.last() == c {
            assert forall|j: int| 0 <= j < split_char(s, c).len() implies find_char(
                #[trigger] split_char(s, c)[j],
                c,
            ) is None by {
                if j < init.len() {
                    assert(split_char(s, c)[j] == init[j]);
                }
            }
        } else {
            assert forall|j: int| 0 <= j < split_char(s, c).len() implies find_char(
                #[trigger] split_char(s, c)[j],
                c,
            ) is None by {
                if j < init.len() - 1 {
                    assert(split_char(s, c)[j] == init[j]);
                } else {
                    assert(split_char(s, c)[j] == init.last().push(s.last()));
                    lemma_find_char_push(init.last(), s.last(), c);
                }
            }
        }
    }
}

/// ASCII letters made lower case (`str::to_ascii_lowercase`).
pub open spec fn ascii_lower(s: Seq<char>) -> Seq<char> {
    s.map_values(
        |c: char|
            if 65 <= c as u32 <= 90 {
                (c as u32 + 32) as char
            } else {
                c
            },
    )
}

pub fn ascii_lower_of(s: &[char]) -> (r: Vec<char>)
    ensures
        r@ == ascii_lower(s@),
{
    let mut r: Vec<char> = Vec::new();
    let mut i: usize = 0;
    while i < s.len()
        invariant
            i <= s@.len(),
            r@ == ascii_lower(s@.take(i as int)),
        decreases s@.len() - i,
    {
        let c = s[i];
        let u = c as u32;
        let d = if 65 <= u && u <= 90 {
            ((u + 32) as u8) as char
        } else {
            c
        };
        r.push(d);
        assert(ascii_lower(s@.take(i + 1)) =~= ascii_lower(s@.take(i as int)).push(d));
        i = i + 1;
    }
    assert(s@.take(s@.len() as int) == s@);
    r
}

/// No `\n` in `s` directly follows a `\r`.
pub open spec fn no_crlf(s: Seq<char>) -> bool {
    forall|i: int| 1 <= i < s.len() && #[trigger] s[i] == '\n' ==> s[i - 1] != '\r'
}

/// Without `\r\n` pairs there is nothing to replace.
pub proof fn lemma_replace_crlf_noop(s: Seq<char>)
    requires
        no_crlf(s),
    ensures
        replace_crlf(s) == s,
    decreases s.len(),
{
    if s.len() > 0 {
        let t = s.drop_last();
        assert forall|i: int| 1 <= i < t.len() && #[trigger] t[i] == '\n' implies t[i - 1] != '\r' by {
            assert(s[i] == t[i] && s[i - 1] == t[i - 1]);
        }
        lemma_replace_crlf_noop(t);
        if s.len() >= 2 && s.last() == '\n' {
            assert(s[s.len() - 1] == '\n');
        }
        assert(t.push(s.last()) == s);
    }
}

/// The last character of a replaced text is that of the text.
pub proof fn lemma_replace_crlf_last(s: Seq<char>)
    requires
        s.len() > 0,
    ensures
        replace_crlf(s).len() > 0,
        replace_crlf(s).last() == s.last(),
{
}

/// A split of a text not ending in the separator ends with a non-empty piece.
pub proof fn lemma_split_char_last(s: Seq<char>, c: char)
    requires
        s.len() > 0,
        s.last() != c,
    ensures
        split_char(s, c).last().len() > 0,
{
    lemma_split_char_len(s.drop_last(), c);
}

/// The last character of a join of lines none of which ends in `\r`.
pub proof fn lemma_join_last(ls: Seq<Seq<char>>)
    requires
        ls.len() >= 1,
        forall|j: int| 0 <= j < ls.len() ==> !(#[trigger] ls[j].len() > 0 && ls[j].last() == '\r'),
    ensures
        join_lines(ls).len() > 0 ==> join_lines(ls).last() != '\r',
    decreases ls.len(),
{
    if ls.len() > 1 {
        let init = ls.drop_last();
        assert forall|j: int| 0 <= j < init.len() implies !(#[trigger] init[j].len() > 0
            && init[j].last() == '\r') by {
            assert(init[j] == ls[j]);
        }
        lemma_join_last(init);
        assert(!(ls[ls.len() - 1].len() > 0 && ls[ls.len() - 1].last() == '\r'));
    }
}

/// Lines without `\n`, none but the last ending in `\r`, join into a text
/// without `\r\n`; with the last not ending in `\r` either, so does the
/// text with one more `\n`.
pub proof fn lemma_join_no_crlf(ls: Seq<Seq<char>>)
    requires
        ls.len() >= 1,
        forall|j: int| 0 <= j < ls.len() ==> find_char(#[trigger] ls[j], '\n') is None,
        forall|j: int| 0 <= j < ls.len() - 1 ==> !(#[trigger] ls[j].len() > 0 && ls[j].last() == '\r'),
    ensures
        no_crlf(join_lines(ls)),
        !(ls.last().len() > 0 && ls.last().last() == '\r') ==> no_crlf(join_lines(ls).push('\n')),
    decreases ls.len(),
{
    let j = join_lines(ls);
    if ls.len() == 1 {
        lemma_find_char(ls[0], '\n');
    } else {
        let init = ls.drop_last();
        assert forall|k: int| 0 <= k < init.len() implies find_char(#[trigger] init[k], '\n') is None by {
            assert(init[k] == ls[k]);
        }
        assert forall|k: int| 0 <= k < init.len() implies !(#[trigger] init[k].len() > 0
            && init[k].last() == '\r') by {
            assert(init[k] == ls[k]);
        }
        lemma_join_last(init);
        let j0 = join_lines(init);
        let l = ls.last();
        lemma_find_char(l, '\n');
        assert(find_char(ls[ls.len() - 1], '\n') is None);
        assert(j == j0 + seq!['\n'] + l);
        lemma_find_char(j0, '\n');
        assert forall|i: int| 1 <= i < j.len() && #[trigger] j[i] == '\n' implies j[i - 1] != '\r' by {
            if i < j0.len() {
                assert(j[i] == j0[i] && j[i - 1] == j0[i - 1]);
                lemma_join_no_crlf(init);
                assert(j0[i] == '\n');
            } else if i == j0.len() {
                assert(j[i - 1] == j0.last());
            } else {
                assert(j[i] == l[i - j0.len() - 1]);
            }
        }
    }
    if !(ls.last().len() > 0 && ls.last().last() == '\r') {
        assert forall|k: int| 0 <= k < ls.len() implies !(#[trigger] ls[k].len() > 0
            && ls[k].last() == '\r') by {
            if k == ls.len() - 1 {
                assert(ls[k] == ls.last());
            }
        }
        lemma_join_last(ls);
        assert forall|i: int| 1 <= i < j.push('\n').len() && #[trigger] j.push('\n')[i] == '\n'
            implies j.push('\n')[i - 1] != '\r' by {
            if i < j.len() {
                assert(j.push('\n')[i] == j[i] && j.push('\n')[i - 1] == j[i - 1]);
            }
        }
    }
}

/// The last piece of a split ends with the text's last character, unless
/// that character is the separator.
pub proof fn lemma_split_char_last_piece(s: Seq<char>, c: char)
    requires
        s.len() > 0,
    ensures
        s.last() == c ==> split_char(s, c).last().len() == 0,
        s.last() != c ==> split_char(s, c).last().len() > 0 && split_char(s, c).last().last()
            == s.last(),
{
    lemma_split_char_len(s.drop_last(), c);
}

/// `\r\n` made `\n`, then split at `\n`: the pieces of the split of the
/// text itself, each but the last without the `\r` before its line feed.
pub proof fn lemma_split_replace_crlf(s: Seq<char>)
    ensures
        split_char(replace_crlf(s), '\n') == split_char(s, '\n').drop_last().map_values(
            |l: Seq<char>| strip_cr(l),
        ).push(split_char(s, '\n').last()),
    decreases s.len(),
{
    let nl = '\n';
    lemma_split_char_len(s, nl);
    if s.len() == 0 {
        assert(split_char(s, nl) == seq![Seq::<char>::empty()]);
        assert(split_char(s, nl).drop_last().map_values(|l: Seq<char>| strip_cr(l)) =~= Seq::<
            Seq<char>,
        >::empty());
    } else if s.len() >= 2 && s.last() == nl && s[s.len() - 2] == '\r' {
        let t = s.take(s.len() - 2);
        let u = s.drop_last();
        assert(u.drop_last() == t);
        assert(u.last() == '\r');
        lemma_split_replace_crlf(t);
        lemma_split_char_len(t, nl);
        let st = split_char(t, nl);
        let su = split_char(u, nl);
        assert(su == st.update(st.len() - 1, st.last().push('\r')));
        assert(split_char(s, nl) == su.push(Seq::empty()));
        let r = replace_crlf(s);
        assert(r == replace_crlf(t).push(nl));
        assert(r.drop_last() == replace_crlf(t));
        assert(split_char(r, nl) == split_char(replace_crlf(t), nl).push(Seq::empty()));
        assert(strip_cr(st.last().push('\r')) == st.last());
        assert(su.map_values(|l: Seq<char>| strip_cr(l)) =~= st.drop_last().map_values(
            |l: Seq<char>| strip_cr(l),
        ).push(st.last()));
        assert(split_char(s, nl).drop_last() == su);
    } else {
        let u = s.drop_last();
        let x = s.last();
        lemma_split_replace_crlf(u);
        lemma_split_char_len(u, nl);
        let su = split_char(u, nl);
        let r = replace_crlf(s);
        assert(r == replace_crlf(u).push(x));
        assert(r.drop_last() == replace_crlf(u));
        assert(r.last() == x);
        if x == nl {
            // the text before the line feed does not end in `\r`
            if u.len() > 0 {
                lemma_split_char_last_piece(u, nl);
                assert(u.last() != '\r');
            }
            assert(strip_cr(su.last()) == su.last());
            assert(split_char(s, nl) == su.push(Seq::empty()));
            assert(split_char(s, nl).drop_last() == su);
            assert(su.map_values(|l: Seq<char>| strip_cr(l)) =~= su.drop_last().map_values(
                |l: Seq<char>| strip_cr(l),
            ).push(su.last()));
        } else {
            let ss = split_char(s, nl);
            assert(ss == su.update(su.len() - 1, su.last().push(x)));
            assert(ss.drop_last() =~= su.drop_last());
        }
    }
}

/// Every `\r` in `s` is directly followed by `\n`.
pub open spec fn cr_before_lf(s: Seq<char>) -> bool {
    forall|i: int| 0 <= i < s.len() && #[trigger] s[i] == '\r' ==> i + 1 < s.len() && s[i + 1] == '\n'
}

/// `x` does not occur in `s`.
pub open spec fn lacks(s: Seq<char>, x: char) -> bool {
    forall|i: int| 0 <= i < s.len() ==> #[trigger] s[i] != x
}

/// With every `\r` before a `\n`, none is left once the pairs are replaced.
pub proof fn lemma_replace_crlf_lacks_cr(s: Seq<char>)
    requires
        cr_before_lf(s),
    ensures
        lacks(replace_crlf(s), '\r'),
    decreases s.len(),
{
    if s.len() > 0 {
        let r = replace_crlf(s);
        if s.len() >= 2 && s.last() == '\n' && s[s.len() - 2] == '\r' {
            let t = s.take(s.len() - 2);
            assert forall|i: int| 0 <= i < t.len() && #[trigger] t[i] == '\r' implies i + 1 < t.len()
                && t[i + 1] == '\n' by {
                assert(s[i] == t[i]);
                if i + 1 >= t.len() {
                    assert(s[i + 1] == s[s.len() - 2]);
                }
            }
            lemma_replace_crlf_lacks_cr(t);
            assert(r == replace_crlf(t).push('\n'));
        } else {
            let u = s.drop_last();
            assert(s[s.len() - 1] != '\r');
            assert forall|i: int| 0 <= i < u.len() && #[trigger] u[i] == '\r' implies i + 1 < u.len()
                && u[i + 1] == '\n' by {
                assert(s[i] == u[i]);
                if i + 1 >= u.len() {
                    assert(s[i + 1] == s.last());
                }
            }
            lemma_replace_crlf_lacks_cr(u);
            assert(r == replace_crlf(u).push(s.last()));
        }
    }
}

/// A character missing from a text is missing from every piece of its split.
pub proof fn lemma_split_char_lacks(s: Seq<char>, c: char, x: char)
    requires
        lacks(s, x),
    ensures
        forall|j: int| 0 <= j < split_char(s, c).len() ==> lacks(#[trigger] split_char(s, c)[j], x),
    decreases s.len(),
{
    if s.len() > 0 {
        let u = s.drop_last();
        assert forall|i: int| 0 <= i < u.len() implies #[trigger] u[i] != x by {
            assert(u[i] == s[i]);
        }
        lemma_split_char_lacks(u, c, x);
        lemma_split_char_len(u, c);
        let init = split_char(u, c);
        let ss = split_char(s, c);
        assert forall|j: int| 0 <= j < ss.len() implies lacks(#[trigger] ss[j], x) by {
            if s.last() == c {
                if j < init.len() {
                    assert(ss[j] == init[j]);
                }
            } else if j < init.len() - 1 {
                assert(ss[j] == init[j]);
            } else {
                let p = init.last().push(s.last());
                assert(ss[j] == p);
                assert(lacks(init[init.len() - 1], x));
                assert forall|k: int| 0 <= k < p.len() implies #[trigger] p[k] != x by {
                    if k < p.len() - 1 {
                        assert(p[k] == init.last()[k]);
                    } else {
                        assert(s[s.len() - 1] != x);
                    }
                }
            }
        }
    }
}

/// The first line `str::lines` reads from `line\nrest`, for a line without
/// line feed or final `\r`, is that line.
pub proof fn lemma_first_line(line: Seq<char>, rest: Seq<char>)
    requires
        forall|i: int| 0 <= i < line.len() ==> line[i] != '\n',
        line.len() > 0 && line.last() != '\r',
    ensures
        text_lines(line + seq!['\n'] + rest).len() > 0,
        text_lines(line + seq!['\n'] + rest)[0] == line,
{
    let nl = '\n';
    let s = line + seq![nl] + rest;
    assert(s == line.push(nl) + rest);
    lemma_split_char_concat(line, rest, nl);
    lemma_split_char_len(rest, nl);
    lemma_split_no_sep(line, nl);
    let segs = split_char(s, nl);
    assert(segs == seq![line] + split_char(rest, nl));
    assert(segs[0] == line);
    assert(segs.len() >= 2);
    let init = segs.drop_last().map_values(|l: Seq<char>| strip_cr(l));
    assert(init[0] == strip_cr(line));
    assert(strip_cr(line) == line);
}

/// A text without the separator splits into itself.
pub proof fn lemma_split_no_sep(s: Seq<char>, c: char)
    requires
        forall|i: int| 0 <= i < s.len() ==> s[i] != c,
    ensures
        split_char(s, c) == seq![s],
    decreases s.len(),
{
    if s.len() > 0 {
        let u = s.drop_last();
        assert forall|i: int| 0 <= i < u.len() implies u[i] != c by {
            assert(u[i] == s[i]);
        }
        lemma_split_no_sep(u, c);
        assert(s[s.len() - 1] != c);
        assert(u.push(s.last()) =~= s);
    } else {
        assert(s =~= Seq::<char>::empty());
    }
}

} // verus!
