//! Calls into the standard library whose results are named rather than spelled
//! out: decoding of bytes, case folding, quoting and the clock.
use std::time::{Duration, SystemTime};
use vstd::prelude::*;
use vstd::utf8::{encode_utf8, is_ascii_chars, valid_utf8};
use crate::text::ascii_lower_of;

verus! {

/// What `String::from_utf8_lossy` makes of a byte sequence.
pub uninterp spec fn lossy_of(bytes: Seq<u8>) -> Seq<char>;

/// `String::from_utf8_lossy`: valid UTF-8 is decoded as it stands; what it puts
/// in the place of invalid bytes is only named.
#[verifier::external_body]
pub(crate) fn lossy(bytes: &Vec<u8>) -> (r: String)
    ensures
        r@ == lossy_of(bytes@),
        valid_utf8(bytes@) ==> encode_utf8(r@) == bytes@,
{
    String::from_utf8_lossy(bytes).into_owned()
}

/// What the `Debug` form of a string is.
pub uninterp spec fn quoted_of(s: Seq<char>) -> Seq<char>;

/// `<str as Debug>::fmt`: the string in quotation marks with its special
/// characters escaped; which ones, and how, is only named.
#[verifier::external_body]
pub(crate) fn quoted(s: &str) -> (r: String)
    ensures
        r@ == quoted_of(s@),
{
    format!("{:?}", s)
}

/// What `str::to_lowercase` makes of a text.
pub uninterp spec fn lowercase_of(s: Seq<char>) -> Seq<char>;

/// `str::to_lowercase`: the ASCII letters of an ASCII text become lower case and
/// nothing else changes; what happens to other letters is only named.
#[verifier::external_body]
pub(crate) fn lowercase(s: &str) -> (r: String)
    ensures
        r@ == lowercase_of(s@),
        is_ascii_chars(s@) ==> r@ == ascii_lower_of(s@),
{
    s.to_lowercase()
}

/// `std::time::SystemTime`, a reading of the clock.
#[verifier::external_type_specification]
#[verifier::external_body]
pub struct ExSystemTime(SystemTime);

/// `SystemTime::now`: a reading of the clock, of which nothing is known.
#[verifier::external_body]
fn system_now() -> (r: SystemTime) {
    SystemTime::now()
}

/// `SystemTime::duration_since`: the time from the epoch to a reading, or `None` for a
/// reading before the epoch. A reading is opaque, so how long the time is stays unsaid.
#[verifier::external_body]
fn since_epoch(t: &SystemTime) -> (r: Option<Duration>) {
    t.duration_since(std::time::UNIX_EPOCH).ok()
}

/// `Duration::subsec_nanos`: the part of a duration beyond whole seconds, in nanoseconds,
/// which is less than a second.
#[verifier::external_body]
fn subsec_nanos(d: &Duration) -> (r: u32)
    ensures
        r < 1_000_000_000,
{
    d.subsec_nanos()
}

/// The nanoseconds of the current second, or zero before the epoch.
pub(crate) fn clock_nanos() -> (r: u64)
    ensures
        r < 1_000_000_000,
{
    let now = system_now();
    match since_epoch(&now) {
        Some(d) => subsec_nanos(&d) as u64,
        None => 0,
    }
}

} // verus!
