//! Formatting for training progress.
use vstd::prelude::*;
use crate::text::{decimal, push_decimal, string_from_chars};

verus! {

/// A duration of `secs` whole seconds as "{h}h {m}m {s}s", dropping leading
/// zero units ("{m}m {s}s" under an hour, "{s}s" under a minute).
pub open spec fn duration_text(secs: nat) -> Seq<char> {
    let hours = secs / 3600;
    let minutes = (secs % 3600) / 60;
    let seconds = secs % 60;
    if hours > 0 {
        decimal(hours) + seq!['h', ' '] + decimal(minutes) + seq!['m', ' '] + decimal(seconds) + seq!['s']
    } else if minutes > 0 {
        decimal(minutes) + seq!['m', ' '] + decimal(seconds) + seq!['s']
    } else {
        decimal(seconds) + seq!['s']
    }
}

/// A duration of `total_secs` whole seconds in readable form.
pub fn format_duration(total_secs: u64) -> (r: String)
    ensures
        r@ == duration_text(total_secs as nat),
{
    let hours = total_secs / 3600;
    let minutes = (total_secs % 3600) / 60;
    let seconds = total_secs % 60;
    let mut out: Vec<char> = Vec::new();
    if hours > 0 {
        push_decimal(&mut out, hours);
        out.push('h');
        out.push(' ');
        push_decimal(&mut out, minutes);
        out.push('m');
        out.push(' ');
        push_decimal(&mut out, seconds);
        out.push('s');
    } else if minutes > 0 {
        push_decimal(&mut out, minutes);
        out.push('m');
        out.push(' ');
        push_decimal(&mut out, seconds);
        out.push('s');
    } else {
        push_decimal(&mut out, seconds);
        out.push('s');
    }
    assert(out@ =~= duration_text(total_secs as nat));
    string_from_chars(&out)
}

} // verus!
