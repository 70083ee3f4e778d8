//! Rendering the final total as hours, minutes and seconds.
//!
//! The total is kept in whole microseconds; the report truncates the
//! fractional seconds and prints, for instance, `0 hours, 3 minutes,
//! 1 seconds` for 181.5 seconds.

use vstd::prelude::*;

verus! {

pub open spec fn digit_char(d: int) -> char {
    if d == 0 {
        '0'
    } else if d == 1 {
        '1'
    } else if d == 2 {
        '2'
    } else if d == 3 {
        '3'
    } else if d == 4 {
        '4'
    } else if d == 5 {
        '5'
    } else if d == 6 {
        '6'
    } else if d == 7 {
        '7'
    } else if d == 8 {
        '8'
    } else {
        '9'
    }
}

/// Decimal digits of `n`, most significant first, without leading
/// zeros (`0` itself is the single digit `0`).
pub open spec fn dec_digits(n: nat) -> Seq<char>
    decreases n,
{
    if n < 10 {
        seq![digit_char(n as int)]
    } else {
        dec_digits(n / 10) + seq![digit_char((n % 10) as int)]
    }
}

/// The report line for a whole number of seconds.
pub open spec fn hms_chars(total_seconds: nat) -> Seq<char> {
    dec_digits(total_seconds / 3600) + " hours, "@ + dec_digits((total_seconds % 3600) / 60)
        + " minutes, "@ + dec_digits(total_seconds % 60) + " seconds"@
}

/// The report line for a total in microseconds: fractional seconds are
/// truncated before splitting into hours, minutes and seconds.
pub open spec fn report_chars(micros: nat) -> Seq<char> {
    hms_chars(micros / 1_000_000)
}

fn digit_str(d: u64) -> (r: &'static str)
    requires
        d < 10,
    ensures
        r@ == seq![digit_char(d as int)],
{
    proof {
        reveal_strlit("0");
        reveal_strlit("1");
        reveal_strlit("2");
        reveal_strlit("3");
        reveal_strlit("4");
        reveal_strlit("5");
        reveal_strlit("6");
        reveal_strlit("7");
        reveal_strlit("8");
        reveal_strlit("9");
    }
    let r = if d == 0 {
        "0"
    } else if d == 1 {
        "1"
    } else if d == 2 {
        "2"
    } else if d == 3 {
        "3"
    } else if d == 4 {
        "4"
    } else if d == 5 {
        "5"
    } else if d == 6 {
        "6"
    } else if d == 7 {
        "7"
    } else if d == 8 {
        "8"
    } else {
        "9"
    };
    proof {
        assert(r@ =~= seq![digit_char(d as int)]);
    }
    r
}

/// The decimal digits of `n`, as a string.
pub fn u64_to_string(n: u64) -> (s: String)
    ensures
        s@ == dec_digits(n as nat),
    decreases n,
{
    if n < 10 {
        String::from_str(digit_str(n))
    } else {
        let mut s = u64_to_string(n / 10);
        s.append(digit_str(n % 10));
        proof {
            assert(s@ =~= dec_digits(n as nat));
        }
        s
    }
}

/// Render a total of `micros` microseconds as elapsed hours, minutes
/// and seconds, fractional seconds truncated.
pub fn format_total(micros: u64) -> (s: String)
    ensures
        s@ == report_chars(micros as nat),
{
    let total_seconds = micros / 1_000_000;
    let hours = total_seconds / 3600;
    let minutes = (total_seconds % 3600) / 60;
    let seconds = total_seconds % 60;
    let mut s = u64_to_string(hours);
    s.append(" hours, ");
    let m = u64_to_string(minutes);
    s.append(m.as_str());
    s.append(" minutes, ");
    let sec = u64_to_string(seconds);
    s.append(sec.as_str());
    s.append(" seconds");
    proof {
        assert(s@ =~= report_chars(micros as nat));
    }
    s
}

} // verus!
