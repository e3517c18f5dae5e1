//! Unsigned integer text: parsing with the rules of `from_str_radix`
//! and decimal formatting.

use vstd::prelude::*;
use crate::text::push_char;

verus! {

/// Why a string is not an unsigned integer (the kinds of `ParseIntError`).
#[derive(Clone, Copy, Debug, PartialEq, Eq, Structural)]
pub enum IntErrorKind {
    Empty,
    InvalidDigit,
    PosOverflow,
}

/// `char::to_digit`.
pub open spec fn digit_value(c: char, radix: nat) -> Option<nat> {
    let u = c as u32;
    let v: int = if 48 <= u <= 57 {
        u - 48
    } else if 97 <= u <= 122 {
        u - 97 + 10
    } else if 65 <= u <= 90 {
        u - 65 + 10
    } else {
        radix as int
    };
    if v < radix {
        Some(v as nat)
    } else {
        None
    }
}

/// Digits read left to right onto `acc`; the first bad digit or the first
/// step past `max` decides the error.
pub open spec fn digits_value(d: Seq<char>, radix: nat, max: nat, acc: nat) -> Result<
    nat,
    IntErrorKind,
>
    decreases d.len(),
{
    if d.len() == 0 {
        Ok(acc)
    } else {
        match digit_value(d[0], radix) {
            None => Err(IntErrorKind::InvalidDigit),
            Some(x) => {
                let v = acc * radix + x;
                if v > max {
                    Err(IntErrorKind::PosOverflow)
                } else {
                    digits_value(d.drop_first(), radix, max, v)
                }
            },
        }
    }
}

/// `from_str_radix` for an unsigned type whose largest value is `max`.
pub open spec fn parse_uint(s: Seq<char>, radix: nat, max: nat) -> Result<nat, IntErrorKind> {
    if s.len() == 0 {
        Err(IntErrorKind::Empty)
    } else if (s[0] == '+' || s[0] == '-') && s.len() == 1 {
        Err(IntErrorKind::InvalidDigit)
    } else if s[0] == '+' {
        digits_value(s.drop_first(), radix, max, 0)
    } else {
        digits_value(s, radix, max, 0)
    }
}

fn digit_of(c: char, radix: u32) -> (r: Option<u32>)
    requires
        2 <= radix <= 36,
    ensures
        match r {
            Some(x) => digit_value(c, radix as nat) == Some(x as nat) && x < radix,
            None => digit_value(c, radix as nat) is None,
        },
{
    let u = c as u32;
    let v = if 48 <= u && u <= 57 {
        u - 48
    } else if 97 <= u && u <= 122 {
        u - 97 + 10
    } else if 65 <= u && u <= 90 {
        u - 65 + 10
    } else {
        radix
    };
    if v < radix {
        Some(v)
    } else {
        None
    }
}

/// `parse_uint` of `s[from..to]`.
pub fn parse_uint_of(s: &[char], from: usize, to: usize, radix: u32, max: u64) -> (r: Result<
    u64,
    IntErrorKind,
>)
    requires
        from <= to <= s@.len(),
        2 <= radix <= 36,
    ensures
        match r {
            Ok(v) => parse_uint(s@.subrange(from as int, to as int), radix as nat, max as nat)
                == Ok::<nat, IntErrorKind>(v as nat) && v <= max,
            Err(e) => parse_uint(s@.subrange(from as int, to as int), radix as nat, max as nat)
                == Err::<nat, IntErrorKind>(e),
        },
{
    let ghost t = s@.subrange(from as int, to as int);
    if from == to {
        return Err(IntErrorKind::Empty);
    }
    if (s[from] == '+' || s[from] == '-') && to - from == 1 {
        return Err(IntErrorKind::InvalidDigit);
    }
    let start = if s[from] == '+' {
        from + 1
    } else {
        from
    };
    let ghost d = s@.subrange(start as int, to as int);
    assert(t[0] == s@[from as int]);
    assert(s@[from as int] == '+' ==> t.drop_first() == d);
    assert(s@[from as int] != '+' ==> t == d);
    let mut acc: u64 = 0;
    let mut i = start;
    while i < to
        invariant
            start <= i <= to <= s@.len(),
            d == s@.subrange(start as int, to as int),
            t == s@.subrange(from as int, to as int),
            parse_uint(t, radix as nat, max as nat) == digits_value(d, radix as nat, max as nat, 0),
            2 <= radix <= 36,
            acc <= max,
            digits_value(d, radix as nat, max as nat, 0) == digits_value(
                s@.subrange(i as int, to as int),
                radix as nat,
                max as nat,
                acc as nat,
            ),
        decreases to - i,
    {
        let ghost rest = s@.subrange(i as int, to as int);
        assert(rest[0] == s@[i as int]);
        assert(rest.drop_first() == s@.subrange(i + 1, to as int));
        match digit_of(s[i], radix) {
            None => {
                return Err(IntErrorKind::InvalidDigit);
            },
            Some(x) => {
                assert(acc as u128 * radix as u128 <= 0xffff_ffff_ffff_ffff * 36) by (nonlinear_arith)
                    requires
                        acc <= 0xffff_ffff_ffff_ffffu64,
                        radix <= 36,
                ;
                let wide: u128 = acc as u128 * radix as u128 + x as u128;
                if wide > max as u128 {
                    return Err(IntErrorKind::PosOverflow);
                }
                acc = wide as u64;
            },
        }
        i = i + 1;
    }
    assert(s@.subrange(to as int, to as int) == Seq::<char>::empty());
    Ok(acc)
}

/// The decimal digit for `d < 10`.
pub open spec fn digit_char(d: nat) -> char {
    (48 + d) as char
}

/// Decimal text of `n` (`n.to_string()`).
pub open spec fn decimal(n: nat) -> Seq<char>
    decreases n,
{
    if n < 10 {
        seq![digit_char(n)]
    } else {
        decimal(n / 10).push(digit_char(n % 10))
    }
}

/// Appends the decimal text of `n`.
pub fn push_decimal(r: &mut String, n: u64)
    ensures
        final(r)@ == old(r)@ + decimal(n as nat),
    decreases n,
{
    if n >= 10 {
        push_decimal(r, n / 10);
    }
    let d = n % 10;
    let c = if d == 0 {
        '0'
    } else if d == 1 {
        '1'
    } else if d == 2 {
        '2'
    } else if d == 3 {
        '3'
    } else if d == 4 {
        '4'
    } else if d == 5 {
        '5'
    } else if d == 6 {
        '6'
    } else if d == 7 {
        '7'
    } else if d == 8 {
        '8'
    } else {
        '9'
    };
    push_char(r, c);
}

/// One more digit after digits that read as `v` reads as `v * radix + x`
/// when that still fits.
pub proof fn lemma_digits_push(s: Seq<char>, c: char, radix: nat, max: nat, acc: nat, v: nat, x: nat)
    requires
        digits_value(s, radix, max, acc) == Ok::<nat, IntErrorKind>(v),
        digit_value(c, radix) == Some(x),
        v * radix + x <= max,
    ensures
        digits_value(s.push(c), radix, max, acc) == Ok::<nat, IntErrorKind>(v * radix + x),
    decreases s.len(),
{
    if s.len() == 0 {
        assert(seq![c].drop_first() =~= Seq::<char>::empty());
        assert(s.push(c) =~= seq![c]);
        assert(v == acc);
        assert(digits_value(Seq::<char>::empty(), radix, max, acc * radix + x) == Ok::<nat, IntErrorKind>(
            acc * radix + x,
        ));
        assert(digits_value(seq![c], radix, max, acc) == digits_value(
            seq![c].drop_first(),
            radix,
            max,
            acc * radix + x,
        ));
    } else {
        assert(s.push(c).drop_first() =~= s.drop_first().push(c));
        assert(s.push(c)[0] == s[0]);
        let y = digit_value(s[0], radix)->0;
        lemma_digits_push(s.drop_first(), c, radix, max, acc * radix + y, v, x);
    }
}

/// The decimal digit of `d < 10` reads back as `d`.
pub proof fn lemma_digit_char(d: nat)
    requires
        d < 10,
    ensures
        digit_value(digit_char(d), 10) == Some(d),
{
    assert((48 + d) as char as u32 == 48 + d);
}

/// Decimal text reads back as the number it writes, for every number that
/// fits the type it is read into.
pub proof fn lemma_parse_decimal(n: nat, max: nat)
    requires
        n <= max,
    ensures
        parse_uint(decimal(n), 10, max) == Ok::<nat, IntErrorKind>(n),
        decimal(n).len() > 0,
        decimal(n)[0] != '+' && decimal(n)[0] != '-',
    decreases n,
{
    if n < 10 {
        lemma_digit_char(n);
        assert(decimal(n) == seq![digit_char(n)]);
        lemma_digits_push(Seq::empty(), digit_char(n), 10, max, 0, 0, n);
        assert(Seq::<char>::empty().push(digit_char(n)) =~= seq![digit_char(n)]);
        assert(decimal(n)[0] as u32 == 48 + n);
    } else {
        lemma_parse_decimal(n / 10, max);
        lemma_digit_char(n % 10);
        let d = decimal(n / 10);
        assert(decimal(n) == d.push(digit_char(n % 10)));
        assert(parse_uint(d, 10, max) == digits_value(d, 10, max, 0));
        lemma_digits_push(d, digit_char(n % 10), 10, max, 0, n / 10, n % 10);
        assert(decimal(n)[0] == d[0]);
    }
}

/// Decimal text consists of the digits `0` to `9`.
pub proof fn lemma_decimal_digits(n: nat)
    ensures
        forall|i: int| 0 <= i < decimal(n).len() ==> 48 <= #[trigger] decimal(n)[i] as u32 <= 57,
    decreases n,
{
    if n < 10 {
        assert((48 + n) as char as u32 == 48 + n);
    } else {
        lemma_decimal_digits(n / 10);
        let m = n % 10;
        assert((48 + m) as char as u32 == 48 + m);
        assert forall|i: int| 0 <= i < decimal(n).len() implies 48 <= #[trigger] decimal(n)[i] as u32 <= 57 by {
            if i < decimal(n / 10).len() {
                assert(decimal(n)[i] == decimal(n / 10)[i]);
            }
        }
    }
}

/// Digits that already went past `max` stay past it with one more digit.
proof fn lemma_digits_push_overflow(s: Seq<char>, c: char, radix: nat, max: nat, acc: nat)
    requires
        digits_value(s, radix, max, acc) == Err::<nat, IntErrorKind>(IntErrorKind::PosOverflow),
    ensures
        digits_value(s.push(c), radix, max, acc) == Err::<nat, IntErrorKind>(IntErrorKind::PosOverflow),
    decreases s.len(),
{
    if s.len() > 0 {
        assert(s.push(c).drop_first() =~= s.drop_first().push(c));
        assert(s.push(c)[0] == s[0]);
        let y = digit_value(s[0], radix)->0;
        if acc * radix + y <= max {
            lemma_digits_push_overflow(s.drop_first(), c, radix, max, acc * radix + y);
        }
    }
}

/// A number written in decimal is read back when it fits `max`, and is
/// refused as too large when it does not.
pub proof fn lemma_parse_decimal_overflow(n: nat, max: nat)
    requires
        n > max,
    ensures
        parse_uint(decimal(n), 10, max) == Err::<nat, IntErrorKind>(IntErrorKind::PosOverflow),
    decreases n,
{
    lemma_digit_char(n % 10);
    if n < 10 {
        assert(decimal(n) == seq![digit_char(n)]);
        assert(decimal(n)[0] as u32 == 48 + n);
        assert(seq![digit_char(n)].drop_first() =~= Seq::<char>::empty());
    } else {
        let d = decimal(n / 10);
        assert(decimal(n) == d.push(digit_char(n % 10)));
        if n / 10 > max {
            lemma_parse_decimal_overflow(n / 10, max);
            lemma_parse_decimal(n / 10, n / 10);
            lemma_digits_push_overflow(d, digit_char(n % 10), 10, max, 0);
        } else {
            lemma_parse_decimal(n / 10, max);
            lemma_parse_decimal(n / 10, n / 10);
            lemma_digits_push_step_over(d, digit_char(n % 10), max, 0, n / 10, n % 10);
        }
        assert(decimal(n)[0] == d[0]);
    }
}

/// One more digit that takes the value past `max` is refused.
proof fn lemma_digits_push_step_over(s: Seq<char>, c: char, max: nat, acc: nat, v: nat, x: nat)
    requires
        digits_value(s, 10, max, acc) == Ok::<nat, IntErrorKind>(v),
        digit_value(c, 10) == Some(x),
        v * 10 + x > max,
    ensures
        digits_value(s.push(c), 10, max, acc) == Err::<nat, IntErrorKind>(IntErrorKind::PosOverflow),
    decreases s.len(),
{
    if s.len() == 0 {
        assert(s.push(c) =~= seq![c]);
        assert(seq![c].drop_first() =~= Seq::<char>::empty());
    } else {
        assert(s.push(c).drop_first() =~= s.drop_first().push(c));
        assert(s.push(c)[0] == s[0]);
        let y = digit_value(s[0], 10)->0;
        lemma_digits_push_step_over(s.drop_first(), c, max, acc * 10 + y, v, x);
    }
}

} // verus!
