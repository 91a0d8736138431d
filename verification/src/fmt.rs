//! Decimal rendering of counters for the diagnostic reports, proved against
//! a mathematical digit expansion.

use vstd::prelude::*;
use vstd::string::StringExecFns;

verus! {

/// The decimal digit character for `d`.
pub open spec fn spec_digit(d: u64) -> char {
    ((d + 48) as u8) as char
}

/// The decimal expansion of `n`, most significant digit first.
pub open spec fn spec_decimal(n: u64) -> Seq<char>
    decreases n,
{
    if n < 10 {
        seq![spec_digit(n)]
    } else {
        spec_decimal(n / 10).push(spec_digit(n % 10))
    }
}

/// One decimal digit as text.
fn digit_str(d: u64) -> (r: &'static str)
    requires
        d < 10,
    ensures
        r@ =~= seq![spec_digit(d)],
{
    proof {
        reveal_strlit("0");
        reveal_strlit("1");
        reveal_strlit("2");
        reveal_strlit("3");
        reveal_strlit("4");
        reveal_strlit("5");
        reveal_strlit("6");
        reveal_strlit("7");
        reveal_strlit("8");
        reveal_strlit("9");
    }
    if d == 0 {
        "0"
    } else if d == 1 {
        "1"
    } else if d == 2 {
        "2"
    } else if d == 3 {
        "3"
    } else if d == 4 {
        "4"
    } else if d == 5 {
        "5"
    } else if d == 6 {
        "6"
    } else if d == 7 {
        "7"
    } else if d == 8 {
        "8"
    } else {
        "9"
    }
}

/// `n` in decimal.
pub fn u64_to_string(n: u64) -> (r: String)
    ensures
        r@ == spec_decimal(n),
    decreases n,
{
    if n < 10 {
        let s = digit_str(n);
        let r = String::from_str(s);
        proof {
            assert(r@ =~= spec_decimal(n));
        }
        r
    } else {
        let high = u64_to_string(n / 10);
        let low = digit_str(n % 10);
        let r = high.concat(low);
        proof {
            assert(r@ =~= spec_decimal(n));
        }
        r
    }
}

/// The boot banner shown on the diagnostic console.
pub fn get_ascii_header() -> (r: &'static str)
    ensures
        r@.len() > 0,
{
    proof {
        reveal_strlit("YatSenOS process core\n");
    }
    "YatSenOS process core\n"
}

} // verus!
