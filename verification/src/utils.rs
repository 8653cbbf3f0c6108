//! Small presentation helpers: rendering a track duration as text.

use vstd::prelude::*;
use crate::text::push_char;

verus! {

/// The decimal digit character for `d`, meaningful for `d < 10`.
pub open spec fn digit_char(d: nat) -> char {
    ((48 + d) as u8) as char
}

/// The decimal rendering of a number, most significant digit first.
pub open spec fn dec_str(n: nat) -> Seq<char>
    decreases n,
{
    if n < 10 {
        seq![digit_char(n)]
    } else {
        dec_str(n / 10).push(digit_char(n % 10))
    }
}

/// A number rendered to at least two digits, zero-padded.
pub open spec fn two_digits(n: nat) -> Seq<char> {
    if n < 10 {
        seq!['0', digit_char(n)]
    } else {
        dec_str(n)
    }
}

/// What a duration reads as: `m:ss` below one hour, `h:mm:ss` from one hour
/// up, minutes and seconds zero-padded to two digits; an absent duration
/// reads as nothing.  Milliseconds are floored away.
pub open spec fn format_duration_spec(duration_ms: Option<u64>) -> Seq<char> {
    match duration_ms {
        Some(ms) => {
            let total = ms as nat / 1000;
            let hours = total / 3600;
            let minutes = (total % 3600) / 60;
            let seconds = total % 60;
            if hours > 0 {
                dec_str(hours) + seq![':'] + two_digits(minutes) + seq![':'] + two_digits(seconds)
            } else {
                dec_str(minutes) + seq![':'] + two_digits(seconds)
            }
        },
        None => Seq::empty(),
    }
}

/// Appends the decimal rendering of `n`.
fn push_decimal(out: &mut String, n: u64)
    ensures
        final(out)@ == old(out)@ + dec_str(n as nat),
    decreases n,
{
    let ghost pre = out@;
    if n < 10 {
        push_char(out, (48 + n as u8) as char);
        proof {
            assert(out@ =~= pre + dec_str(n as nat));
        }
    } else {
        push_decimal(out, n / 10);
        push_char(out, (48 + (n % 10) as u8) as char);
        proof {
            assert(out@ =~= pre + dec_str(n as nat));
        }
    }
}

/// Appends `n` zero-padded to at least two digits.
fn push_two_digits(out: &mut String, n: u64)
    ensures
        final(out)@ == old(out)@ + two_digits(n as nat),
{
    let ghost pre = out@;
    if n < 10 {
        push_char(out, '0');
        push_char(out, (48 + n as u8) as char);
        proof {
            assert(out@ =~= pre + two_digits(n as nat));
        }
    } else {
        push_decimal(out, n);
    }
}

/// Renders a duration in milliseconds as `m:ss`, or `h:mm:ss` from one hour
/// up; an absent duration renders as the empty string.
pub fn format_duration(duration_ms: Option<u64>) -> (r: String)
    ensures
        r@ == format_duration_spec(duration_ms),
{
    match duration_ms {
        Some(ms) => {
            let total = ms / 1000;
            let hours = total / 3600;
            let minutes = (total % 3600) / 60;
            let seconds = total % 60;
            let mut out = String::new();
            if hours > 0 {
                push_decimal(&mut out, hours);
                push_char(&mut out, ':');
                push_two_digits(&mut out, minutes);
                push_char(&mut out, ':');
                push_two_digits(&mut out, seconds);
            } else {
                push_decimal(&mut out, minutes);
                push_char(&mut out, ':');
                push_two_digits(&mut out, seconds);
            }
            proof {
                assert(out@ =~= format_duration_spec(duration_ms));
            }
            out
        },
        None => String::new(),
    }
}

} // verus!
