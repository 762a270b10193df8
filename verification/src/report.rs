//! Run reporting helpers: error messages for failed statements and the
//! closing run summary.

use vstd::prelude::*;
use crate::text::{chars_of, push_all};
use crate::writer::dec_str;

verus! {

/// The error message shown when a named statement fails.
pub fn msg(query: &str) -> (r: Vec<char>)
    ensures
        r@ == "Error executing "@ + query@,
{
    let mut out = chars_of("Error executing ");
    let q = chars_of(query);
    push_all(&mut out, &q);
    out
}

/// The closing run summary for an elapsed number of seconds.
pub open spec fn elapsed_message(secs: int) -> Seq<char> {
    "Having feasted for "@ + dec_str(secs / 3600) + " hours "@ + dec_str((secs / 60) % 60)
        + " minutes "@ + dec_str(secs % 60) + " seconds, Dracula now goes back to sleep"@
}

/// Render the closing run summary: the elapsed seconds broken into hours,
/// minutes and seconds.
pub fn print_end(elapsed_secs: u64) -> (r: Vec<char>)
    ensures
        r@ == elapsed_message(elapsed_secs as int),
{
    let hours = elapsed_secs / 3600;
    let minutes = (elapsed_secs / 60) % 60;
    let seconds = elapsed_secs % 60;
    let mut out = chars_of("Having feasted for ");
    crate::writer::push_dec(&mut out, hours);
    let h = chars_of(" hours ");
    push_all(&mut out, &h);
    crate::writer::push_dec(&mut out, minutes);
    let m = chars_of(" minutes ");
    push_all(&mut out, &m);
    crate::writer::push_dec(&mut out, seconds);
    let s = chars_of(" seconds, Dracula now goes back to sleep");
    push_all(&mut out, &s);
    proof {
        assert(out@ =~= elapsed_message(elapsed_secs as int));
    }
    out
}

} // verus!