//! Writing numbers for people.

use crate::control;
use crate::index_db;
use crate::text;
use vstd::prelude::*;
use vstd::slice::slice_subrange;

verus! {

/// How `humansize::format_size` writes a size with its `BINARY` options, such
/// as `1.50 KiB`, or else with its `DECIMAL` ones, such as `1.50 kB`.
pub uninterp spec fn written_size(bytes: u64, binary: bool) -> Seq<char>;

/// `humansize::format_size` with the options `BINARY`, or else `DECIMAL`: the
/// text depends on the size and the options alone.
#[verifier::external_body]
fn write_size(bytes: u64, binary: bool) -> (r: String)
    ensures
        r@ == written_size(bytes, binary),
{
    humansize::format_size(bytes, if binary { humansize::BINARY } else { humansize::DECIMAL })
}

/// A size as it is written for people.
pub open spec fn size_text(bytes: u64) -> Seq<char> {
    written_size(bytes, false)
}

/// Writes a size for people, such as `1.50 kB`.
pub fn format_size(bytes: u64) -> (r: String)
    ensures
        r@ == size_text(bytes),
{
    write_size(bytes, false)
}

/// Writes a size that is a power of two, such as that of a cluster, for people,
/// such as `4 KiB`.
pub fn format_binary_size(bytes: u64) -> (r: String)
    ensures
        r@ == written_size(bytes, true),
{
    write_size(bytes, true)
}

/// The beginning of a hash in hexadecimal.
pub fn hex_prefix(hash: &[u8; 32]) -> (r: String)
    ensures
        r@ == index_db::hex(hash@.take(8)),
{
    let head = slice_subrange(hash.as_slice(), 0, 8);
    assert(head@ =~= hash@.take(8));
    index_db::hex_text(head)
}

/// A number with at least two digits.
pub open spec fn two_digits(n: nat) -> Seq<char> {
    if n < 10 {
        "0"@ + text::decimal(n)
    } else {
        text::decimal(n)
    }
}

fn write_two_digits(n: u128) -> (r: String)
    ensures
        r@ == two_digits(n as nat),
{
    if n < 10 {
        "0".to_owned().concat(text::decimal_text(n).as_str())
    } else {
        text::decimal_text(n)
    }
}

/// A duration in milliseconds as `hh:mm:ss`.
pub open spec fn hms(elapsed_ms: nat) -> Seq<char> {
    let secs = elapsed_ms / 1000;
    two_digits(secs / 3600) + ":"@ + two_digits((secs % 3600) / 60) + ":"@ + two_digits(secs % 60)
}

/// Formats a millisecond duration as `hh:mm:ss`, e.g. `00:11:40` instead of a
/// raw "700 seconds" style figure once a scan runs long.
pub fn format_duration_hms(elapsed_ms: u128) -> (r: String)
    ensures
        r@ == hms(elapsed_ms as nat),
{
    let secs: u128 = elapsed_ms / 1000;
    write_two_digits(secs / 3600).concat(":").concat(
        write_two_digits((secs % 3600) / 60).as_str(),
    ).concat(":").concat(write_two_digits(secs % 60).as_str())
}

/// A number of seconds in its two largest units.
pub open spec fn eta_text(secs: nat) -> Seq<char> {
    if secs < 60 {
        text::decimal(secs) + "s"@
    } else if secs < 3600 {
        text::decimal(secs / 60) + "m "@ + text::decimal(secs % 60) + "s"@
    } else {
        text::decimal(secs / 3600) + "h "@ + text::decimal((secs % 3600) / 60) + "m"@
    }
}

/// Formats the time that is left, given in nanoseconds.
pub fn format_eta(nanos: u128) -> (r: String)
    ensures
        r@ == eta_text(nanos as nat / 1_000_000_000),
{
    let secs: u128 = nanos / 1_000_000_000;
    if secs < 60 {
        text::decimal_text(secs).concat("s")
    } else if secs < 3600 {
        text::decimal_text(secs / 60).concat("m ").concat(
            text::decimal_text(secs % 60).as_str(),
        ).concat("s")
    } else {
        text::decimal_text(secs / 3600).concat("h ").concat(
            text::decimal_text((secs % 3600) / 60).as_str(),
        ).concat("m")
    }
}

/// What is shown of a hashing pass, given how its two sizes are written.
pub open spec fn progress_text(
    done_bytes: u64,
    total_bytes: u64,
    elapsed: u64,
    done_text: Seq<char>,
    total_text: Seq<char>,
) -> Seq<char> {
    "Hashed "@ + done_text + " / "@ + total_text + (match control::remaining_time(
        done_bytes,
        total_bytes,
        elapsed,
    ) {
        Some(t) => " — ETA "@ + eta_text(t / 1_000_000_000),
        None => if done_bytes >= total_bytes && total_bytes > 0 {
            " — finishing up..."@
        } else {
            " — estimating..."@
        },
    })
}

/// Says how far a hashing pass has come, given how its two sizes are written.
pub fn describe_progress(
    done_bytes: u64,
    total_bytes: u64,
    elapsed: u64,
    done_text: &str,
    total_text: &str,
) -> (r: String)
    ensures
        r@ == progress_text(done_bytes, total_bytes, elapsed, done_text@, total_text@),
{
    let start: String = "Hashed ".to_owned().concat(done_text).concat(" / ").concat(total_text);
    let end: String = match control::estimate_remaining(done_bytes, total_bytes, elapsed) {
        Some(t) => " — ETA ".to_owned().concat(format_eta(t).as_str()),
        None => if done_bytes >= total_bytes && total_bytes > 0 {
            " — finishing up...".to_owned()
        } else {
            " — estimating...".to_owned()
        },
    };
    start.concat(end.as_str())
}

/// Says how far a hashing pass has come after running for `elapsed`.
pub fn hash_progress_text(done_bytes: u64, total_bytes: u64, elapsed: u64) -> (r: String)
    ensures
        r@ == progress_text(
            done_bytes,
            total_bytes,
            elapsed,
            size_text(done_bytes),
            size_text(total_bytes),
        ),
{
    let done = format_size(done_bytes);
    let total = format_size(total_bytes);
    describe_progress(done_bytes, total_bytes, elapsed, done.as_str(), total.as_str())
}

/// A duration is written as hours, minutes and seconds with at least two digits
/// each: sixty seconds make a minute and sixty minutes an hour; what is less than
/// a second is left off.
pub proof fn law_durations_are_written_in_full(h: nat, m: nat, s: nat, ms: nat)
    requires
        m < 60,
        s < 60,
        ms < 1000,
    ensures
        hms(((h * 60 + m) * 60 + s) * 1000 + ms) == two_digits(h) + ":"@ + two_digits(m) + ":"@
            + two_digits(s),
        h < 10 ==> two_digits(h) == "0"@ + text::decimal(h),
        h >= 10 ==> two_digits(h) == text::decimal(h),
{
    let secs = (h * 60 + m) * 60 + s;
    let all = secs * 1000 + ms;
    assert(all / 1000 == secs);
    assert(secs == 3600 * h + 60 * m + s);
    assert(secs / 3600 == h);
    assert(secs % 3600 == 60 * m + s);
    assert((secs % 3600) / 60 == m);
    assert(secs % 60 == s);
}

/// The time that is left is written in seconds below a minute, in minutes and
/// seconds below an hour, and in hours and minutes from then on.
pub proof fn law_rest_is_written_in_two_units(h: nat, m: nat, s: nat)
    requires
        m < 60,
        s < 60,
    ensures
        eta_text(s) == text::decimal(s) + "s"@,
        m > 0 ==> eta_text(60 * m + s) == text::decimal(m) + "m "@ + text::decimal(s) + "s"@,
        h > 0 ==> eta_text(3600 * h + 60 * m + s) == text::decimal(h) + "h "@ + text::decimal(m)
            + "m"@,
{
    assert((60 * m + s) / 60 == m && (60 * m + s) % 60 == s);
    let t = 3600 * h + 60 * m + s;
    assert(t / 3600 == h && t % 3600 == 60 * m + s);
    assert((t % 3600) / 60 == m);
}

/// What is shown of a hashing pass: how much is done of how much, and the time
/// that is left as soon as it can be told.
pub proof fn law_progress_is_written(
    done: u64,
    total: u64,
    elapsed: u64,
    a: Seq<char>,
    b: Seq<char>,
)
    ensures
        0 < done < total ==> progress_text(done, total, elapsed, a, b) == "Hashed "@ + a + " / "@
            + b + (" — ETA "@ + eta_text(
            control::remaining_time(done, total, elapsed)->0 / 1_000_000_000,
        )),
        0 < total <= done ==> progress_text(done, total, elapsed, a, b) == "Hashed "@ + a + " / "@
            + b + " — finishing up..."@,
        done == 0 || total == 0 ==> progress_text(done, total, elapsed, a, b) == "Hashed "@ + a
            + " / "@ + b + " — estimating..."@,
{
}

} // verus!
