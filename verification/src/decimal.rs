//! Unsigned decimal literals: the text form of one fingerprint.

use vstd::prelude::*;
use vstd::string::StringExecFns;

verus! {

/// `c` is one of the ten ASCII digits.
pub open spec fn is_digit(c: char) -> bool {
    '0' <= c && c <= '9'
}

/// Every element is an ASCII digit.
pub open spec fn all_digits(s: Seq<char>) -> bool {
    forall|i: int| 0 <= i < s.len() ==> is_digit(#[trigger] s[i])
}

/// The number a digit stands for; 0 for any other character.
pub open spec fn digit_value(c: char) -> nat {
    if is_digit(c) {
        (c as int - '0' as int) as nat
    } else {
        0
    }
}

/// The digit that stands for `d`, for `d` below ten.
pub open spec fn digit_char(d: nat) -> char {
    ('0' as int + d) as char
}

/// The number that a string of digits denotes, most significant digit first.
pub open spec fn decimal_value(s: Seq<char>) -> nat
    decreases s.len(),
{
    if s.len() == 0 {
        0
    } else {
        decimal_value(s.drop_last()) * 10 + digit_value(s.last())
    }
}

/// The shortest decimal literal for `n`: no leading zero, and `"0"` for zero.
pub open spec fn decimal_digits(n: nat) -> Seq<char>
    decreases n,
{
    if n < 10 {
        seq![digit_char(n)]
    } else {
        decimal_digits(n / 10).push(digit_char(n % 10))
    }
}

/// What a string denotes as an unsigned 32-bit decimal literal: one or more
/// ASCII digits and nothing else, with a value that fits in 32 bits.
pub open spec fn parse_decimal(s: Seq<char>) -> Option<u32> {
    if s.len() > 0 && all_digits(s) && decimal_value(s) <= u32::MAX {
        Some(decimal_value(s) as u32)
    } else {
        None
    }
}

/// Where reading one more character takes the value read so far: to ten
/// times that value plus the digit, unless the character is no digit or the
/// result leaves the 32-bit range.
pub open spec fn spec_push_digit(value: u32, c: char) -> Option<u32> {
    if is_digit(c) && value * 10 + digit_value(c) <= u32::MAX {
        Some((value * 10 + digit_value(c)) as u32)
    } else {
        None
    }
}

/// A literal made by `decimal_digits` holds digits only, at least one, and
/// denotes the number it was made from.
pub proof fn lemma_decimal_digits(n: nat)
    ensures
        decimal_digits(n).len() >= 1,
        all_digits(decimal_digits(n)),
        decimal_value(decimal_digits(n)) == n,
    decreases n,
{
    let text = decimal_digits(n);
    if n < 10 {
        assert(is_digit(digit_char(n)));
        assert(text.drop_last() == Seq::<char>::empty());
        assert(decimal_value(text.drop_last()) == 0);
        assert(digit_value(digit_char(n)) == n);
    } else {
        lemma_decimal_digits(n / 10);
        let d = digit_char(n % 10);
        assert(is_digit(d));
        assert(text.drop_last() == decimal_digits(n / 10));
        assert(digit_value(d) == n % 10);
        assert forall|i: int| 0 <= i < text.len() implies is_digit(#[trigger] text[i]) by {
            if i < text.len() - 1 {
                assert(text[i] == decimal_digits(n / 10)[i]);
            }
        }
    }
}

/// Rendering and then parsing gives the number back.
pub proof fn lemma_parse_decimal_digits(n: u32)
    ensures
        parse_decimal(decimal_digits(n as nat)) == Some(n),
{
    lemma_decimal_digits(n as nat);
}

/// Further digits never make the value smaller.
pub proof fn lemma_decimal_value_grows(p: Seq<char>, rest: Seq<char>)
    ensures
        decimal_value(p) <= decimal_value(p + rest),
    decreases rest.len(),
{
    if rest.len() == 0 {
        assert(p + rest == p);
    } else {
        lemma_decimal_value_grows(p, rest.drop_last());
        assert((p + rest).drop_last() == p + rest.drop_last());
    }
}

/// A string with a prefix that no literal starts with is itself no literal:
/// the prefix holds a character that is no digit, or denotes a number beyond
/// 32 bits.
pub proof fn lemma_bad_prefix(p: Seq<char>, s: Seq<char>)
    requires
        p.len() <= s.len(),
        s.subrange(0, p.len() as int) == p,
        !all_digits(p) || decimal_value(p) > u32::MAX,
    ensures
        parse_decimal(s) is None,
{
    if !all_digits(p) {
        let i = choose|i: int| 0 <= i < p.len() && !is_digit(#[trigger] p[i]);
        assert(s[i] == p[i]);
    } else {
        let rest = s.subrange(p.len() as int, s.len() as int);
        assert(p + rest == s);
        lemma_decimal_value_grows(p, rest);
    }
}

/// The text of one digit.
fn digit_str(d: u32) -> (s: &'static str)
    requires
        d < 10,
    ensures
        s@ == seq![digit_char(d as nat)],
{
    proof {
        reveal_strlit("0");
        reveal_strlit("1");
        reveal_strlit("2");
        reveal_strlit("3");
        reveal_strlit("4");
        reveal_strlit("5");
        reveal_strlit("6");
        reveal_strlit("7");
        reveal_strlit("8");
        reveal_strlit("9");
    }
    let s = match d {
        0 => "0",
        1 => "1",
        2 => "2",
        3 => "3",
        4 => "4",
        5 => "5",
        6 => "6",
        7 => "7",
        8 => "8",
        _ => "9",
    };
    assert(s@ =~= seq![digit_char(d as nat)]);
    s
}

/// Appends the decimal literal of `n` to `out`.
pub fn append_decimal(out: &mut String, n: u32)
    ensures
        final(out)@ == old(out)@ + decimal_digits(n as nat),
    decreases n,
{
    if n >= 10 {
        append_decimal(out, n / 10);
    }
    out.append(digit_str(n % 10));
    proof {
        let d = seq![digit_char((n % 10) as nat)];
        if n >= 10 {
            let front = decimal_digits((n / 10) as nat);
            assert(old(out)@ + front + d == old(out)@ + front.push(digit_char((n % 10) as nat)));
        }
    }
}

/// The decimal literal of `n`.
pub fn render_decimal(n: u32) -> (text: String)
    ensures
        text@ == decimal_digits(n as nat),
{
    let mut text = String::new();
    append_decimal(&mut text, n);
    assert(Seq::<char>::empty() + decimal_digits(n as nat) == decimal_digits(n as nat));
    text
}

/// Reads one more character of a literal after the value `value`.
pub fn push_digit(value: u32, c: char) -> (next: Option<u32>)
    ensures
        next == spec_push_digit(value, c),
{
    if '0' <= c && c <= '9' {
        let digit: u64 = (c as u32 - '0' as u32) as u64;
        let wide: u64 = value as u64 * 10 + digit;
        if wide <= u32::MAX as u64 {
            Some(wide as u32)
        } else {
            None
        }
    } else {
        None
    }
}

} // verus!
