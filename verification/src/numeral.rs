//! Decimal rendering of the section and chapter numbers that appear in
//! SKK candidate labels.

use vstd::prelude::*;
use vstd::utf8::char_u32_cast;

verus! {

/// The decimal digit character of a value below ten.
pub open spec fn digit_char(d: nat) -> char {
    ((48 + d) as u32) as char
}

/// The decimal digits of a non-negative value, most significant first.
pub open spec fn dec_digits(n: nat) -> Seq<char>
    decreases n,
{
    if n < 10 {
        seq![digit_char(n)]
    } else {
        dec_digits(n / 10).push(digit_char(n % 10))
    }
}

/// The decimal rendering of an integer, with a leading minus sign when it
/// is negative.
pub open spec fn int_digits(n: int) -> Seq<char> {
    if n < 0 {
        seq!['-'] + dec_digits((-n) as nat)
    } else {
        dec_digits(n as nat)
    }
}

/// The one-character string of a decimal digit.
fn digit_str(d: u32) -> (r: &'static str)
    requires
        d < 10,
    ensures
        r@ == seq![digit_char(d as nat)],
{
    let r: &'static str = match d {
        0 => "0",
        1 => "1",
        2 => "2",
        3 => "3",
        4 => "4",
        5 => "5",
        6 => "6",
        7 => "7",
        8 => "8",
        _ => "9",
    };
    proof {
        reveal_strlit("0");
        reveal_strlit("1");
        reveal_strlit("2");
        reveal_strlit("3");
        reveal_strlit("4");
        reveal_strlit("5");
        reveal_strlit("6");
        reveal_strlit("7");
        reveal_strlit("8");
        reveal_strlit("9");
        char_u32_cast('0', 48);
        char_u32_cast('1', 49);
        char_u32_cast('2', 50);
        char_u32_cast('3', 51);
        char_u32_cast('4', 52);
        char_u32_cast('5', 53);
        char_u32_cast('6', 54);
        char_u32_cast('7', 55);
        char_u32_cast('8', 56);
        char_u32_cast('9', 57);
        assert(r@ =~= seq![digit_char(d as nat)]);
    }
    r
}

/// Renders a non-negative value in decimal.
pub fn u32_decimal(n: u32) -> (r: String)
    ensures
        r@ == dec_digits(n as nat),
    decreases n,
{
    if n < 10 {
        String::from_str(digit_str(n))
    } else {
        let head = u32_decimal(n / 10);
        let r = head.concat(digit_str(n % 10));
        proof {
            assert(r@ =~= dec_digits((n / 10) as nat).push(digit_char((n % 10) as nat)));
        }
        r
    }
}

/// Renders a signed value in decimal, with a minus sign when negative.
pub fn i32_decimal(n: i32) -> (r: String)
    ensures
        r@ == int_digits(n as int),
{
    if n >= 0 {
        u32_decimal(n as u32)
    } else {
        let wide: i64 = n as i64;
        let magnitude: u32 = (-wide) as u32;
        let r = String::from_str("-").concat(u32_decimal(magnitude).as_str());
        proof {
            reveal_strlit("-");
            assert(("-")@ =~= seq!['-']);
        }
        r
    }
}

} // verus!
