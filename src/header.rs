//! Metadata carried by the header lines of a dump: capture time and sampling frequency.
use chrono::{Datelike, TimeZone, Timelike};
use vstd::prelude::*;
use vstd::slice::slice_subrange;
use crate::bytes::{find_byte, parse_num, parse_radix, run, run_end, trim, trim_slice, ByteClass};

verus! {

/// A calendar date and wall-clock time, with no time zone.
#[derive(Clone, Copy, Debug, PartialEq, Eq)]
pub struct CivilTime {
    pub year: i32,
    pub month: u32,
    pub day: u32,
    pub hour: u32,
    pub minute: u32,
    pub second: u32,
    pub nanosecond: u32,
}

/// The date and time that chrono reads from `text` in the `%c` format
/// (`Thu Mar 10 10:45:19 2022`), where it reads one.
pub uninterp spec fn capture_date(text: Seq<u8>) -> Option<CivilTime>;

/// Relies on chrono's `NaiveDateTime::parse_from_str(text, "%c")`, whose result
/// depends on the text alone; text that is not UTF-8 is no date.
#[verifier::external_body]
fn parse_capture_date(text: &[u8]) -> (r: Option<CivilTime>)
    ensures
        r == capture_date(text@),
{
    let s = std::str::from_utf8(text).ok()?;
    let t = chrono::NaiveDateTime::parse_from_str(s, "%c").ok()?;
    Some(CivilTime {
        year: t.year(),
        month: t.month(),
        day: t.day(),
        hour: t.hour(),
        minute: t.minute(),
        second: t.second(),
        nanosecond: t.nanosecond(),
    })
}

/// Relies on chrono's `Local.from_local_datetime(..).single()` and
/// `timestamp_nanos_opt`: the instant, in nanoseconds since the epoch, that
/// the wall-clock time names in the machine's time zone, where there is
/// exactly one and it fits in 64 bits. The result depends on the machine.
#[verifier::external_body]
pub(crate) fn local_epoch_nanos(t: &CivilTime) -> (r: Option<i64>) {
    let d = chrono::NaiveDate::from_ymd_opt(t.year, t.month, t.day)?;
    let n = d.and_hms_nano_opt(t.hour, t.minute, t.second, t.nanosecond)?;
    chrono::Local.from_local_datetime(&n).single()?.timestamp_nanos_opt()
}

/// The bytes of `captured on`.
pub open spec fn captured_on_word() -> Seq<u8> {
    seq![99u8, 97, 112, 116, 117, 114, 101, 100, 32, 111, 110]
}

/// The bytes of `sample_freq`.
pub open spec fn sample_freq_word() -> Seq<u8> {
    seq![115u8, 97, 109, 112, 108, 101, 95, 102, 114, 101, 113]
}

/// Whether `pat` occurs in `h` at `p`.
pub open spec fn occurs_at(h: Seq<u8>, p: int, pat: Seq<u8>) -> bool {
    0 <= p && p + pat.len() <= h.len() && h.subrange(p, p + pat.len()) == pat
}

/// Whether `pat` occurs anywhere in `h`.
pub open spec fn contains(h: Seq<u8>, pat: Seq<u8>) -> bool {
    exists|p: int| occurs_at(h, p, pat)
}

/// The digits of `sample_freq <spaces> } <spaces> = <spaces> <digits>` at `p`.
pub open spec fn freq_at(h: Seq<u8>, p: int) -> Option<Seq<u8>> {
    let a = p + 11;
    let b = a + run(h.skip(a), ByteClass::Space);
    let c = b + 1 + run(h.skip(b + 1), ByteClass::Space);
    let d = c + 1 + run(h.skip(c + 1), ByteClass::Space);
    let n = run(h.skip(d), ByteClass::Digit);
    if occurs_at(h, p, sample_freq_word()) && b > a && b < h.len() && h[b] == 125 && c > b + 1
        && c < h.len() && h[c] == 61 && d > c + 1 && n > 0 {
        Some(h.subrange(d, d + n))
    } else {
        None
    }
}

/// The digits of the first frequency pattern in `h` at or after `p`.
pub open spec fn freq_from(h: Seq<u8>, p: int) -> Option<Seq<u8>>
    decreases h.len() - p,
    when 0 <= p
{
    if p >= h.len() {
        None
    } else if freq_at(h, p) is Some {
        freq_at(h, p)
    } else {
        freq_from(h, p + 1)
    }
}

/// What the header lines say so far.
pub struct HeaderView {
    /// The date of the latest `captured on` line that has one.
    pub captured: Option<CivilTime>,
    /// The latest sampling frequency; zero where there is none.
    pub freq: u64,
    /// Whether a frequency was too large for 64 bits.
    pub bad_freq: bool,
}

/// What one header line adds: a `captured on` line gives the date after its
/// first colon; any other line may give a frequency.
pub open spec fn header_step(acc: HeaderView, h: Seq<u8>) -> HeaderView {
    let p = crate::bytes::until_byte(h, 58) as int;
    if contains(h, captured_on_word()) {
        if p < h.len() {
            match capture_date(trim(h.skip(p + 1))) {
                Some(t) => HeaderView { captured: Some(t), ..acc },
                None => acc,
            }
        } else {
            acc
        }
    } else {
        match freq_from(h, 0) {
            Some(d) => match parse_num(d, 10) {
                Some(v) => HeaderView { freq: v, ..acc },
                None => HeaderView { bad_freq: true, ..acc },
            },
            None => acc,
        }
    }
}

/// What a sequence of header lines says.
pub open spec fn header_info(hs: Seq<Seq<u8>>) -> HeaderView
    decreases hs.len(),
{
    if hs.len() == 0 {
        HeaderView { captured: None, freq: 0, bad_freq: false }
    } else {
        header_step(header_info(hs.drop_last()), hs.last())
    }
}

fn occurs_at_exec(h: &[u8], p: usize, pat: &[u8]) -> (r: bool)
    ensures
        r == occurs_at(h@, p as int, pat@),
{
    if pat.len() > h.len() || p > h.len() - pat.len() {
        return false;
    }
    let n: usize = h.len();
    let mut k: usize = 0;
    while k < pat.len()
        invariant
            n == h@.len(),
            p + pat@.len() <= h@.len(),
            0 <= k <= pat@.len(),
            forall|j: int| 0 <= j < k ==> h@[p + j] == pat@[j],
        decreases pat@.len() - k,
    {
        if h[p + k] != pat[k] {
            assert(h@.subrange(p as int, p + pat@.len())[k as int] != pat@[k as int]);
            return false;
        }
        k = k + 1;
    }
    assert(h@.subrange(p as int, p + pat@.len()) =~= pat@);
    true
}

fn contains_exec(h: &[u8], pat: &[u8]) -> (r: bool)
    ensures
        r == contains(h@, pat@),
{
    let mut p: usize = 0;
    while p < h.len()
        invariant
            0 <= p <= h@.len(),
            forall|q: int| 0 <= q < p ==> !occurs_at(h@, q, pat@),
        decreases h@.len() - p,
    {
        if occurs_at_exec(h, p, pat) {
            return true;
        }
        p = p + 1;
    }
    let r = occurs_at_exec(h, p, pat);
    assert(forall|q: int| q > p ==> !occurs_at(h@, q, pat@));
    r
}

fn freq_at_exec(h: &[u8], p: usize) -> (r: Option<&[u8]>)
    ensures
        match r {
            Some(d) => freq_at(h@, p as int) == Some(d@),
            None => freq_at(h@, p as int) is None,
        },
{
    let word: [u8; 11] = [115, 97, 109, 112, 108, 101, 95, 102, 114, 101, 113];
    assert(word@ =~= sample_freq_word());
    if !occurs_at_exec(h, p, word.as_slice()) {
        return None;
    }
    let n: usize = h.len();
    let a = p + 11;
    let b = run_end(h, a, ByteClass::Space);
    if !(b > a && b < n && h[b] == 125) {
        return None;
    }
    let c = run_end(h, b + 1, ByteClass::Space);
    if !(c > b + 1 && c < n && h[c] == 61) {
        return None;
    }
    let d = run_end(h, c + 1, ByteClass::Space);
    if !(d > c + 1) {
        return None;
    }
    let e = run_end(h, d, ByteClass::Digit);
    if e > d {
        Some(slice_subrange(h, d, e))
    } else {
        None
    }
}

fn freq_digits(h: &[u8]) -> (r: Option<&[u8]>)
    ensures
        match r {
            Some(d) => freq_from(h@, 0) == Some(d@),
            None => freq_from(h@, 0) is None,
        },
{
    let mut p: usize = 0;
    while p < h.len()
        invariant
            0 <= p <= h@.len(),
            freq_from(h@, p as int) == freq_from(h@, 0),
        decreases h@.len() - p,
    {
        match freq_at_exec(h, p) {
            Some(d) => {
                return Some(d);
            },
            None => {},
        }
        p = p + 1;
    }
    None
}

/// The headers' metadata, as `header_info` says.
pub struct HeaderInfo {
    pub captured: Option<CivilTime>,
    pub freq: u64,
    pub bad_freq: bool,
}

/// Reads the capture date and the sampling frequency from the header lines.
pub fn read_headers(hs: &Vec<Vec<u8>>) -> (r: HeaderInfo)
    ensures
        ({
            let v = header_info(hs@.map_values(|l: Vec<u8>| l@));
            r.captured == v.captured && r.freq == v.freq && r.bad_freq == v.bad_freq
        }),
{
    let ghost all = hs@.map_values(|l: Vec<u8>| l@);
    let mut captured: Option<CivilTime> = None;
    let mut freq: u64 = 0;
    let mut bad_freq = false;
    let word: [u8; 11] = [99, 97, 112, 116, 117, 114, 101, 100, 32, 111, 110];
    assert(word@ =~= captured_on_word());
    let mut i: usize = 0;
    assert(all.take(0) =~= seq![]);
    while i < hs.len()
        invariant
            all == hs@.map_values(|l: Vec<u8>| l@),
            word@ == captured_on_word(),
            0 <= i <= hs@.len(),
            header_info(all.take(i as int)) == (HeaderView { captured, freq, bad_freq }),
        decreases hs@.len() - i,
    {
        assert(all.take(i as int + 1).drop_last() =~= all.take(i as int));
        assert(all.take(i as int + 1).last() == hs@[i as int]@);
        let h = hs[i].as_slice();
        if contains_exec(h, word.as_slice()) {
            let p = find_byte(h, 58);
            if p < h.len() {
                let text = trim_slice(slice_subrange(h, p + 1, h.len()));
                assert(h@.subrange(p + 1, h@.len() as int) =~= h@.skip(p + 1));
                match parse_capture_date(text) {
                    Some(t) => {
                        captured = Some(t);
                    },
                    None => {},
                }
            }
        } else {
            match freq_digits(h) {
                Some(d) => match parse_radix(d, 10) {
                    Some(v) => {
                        freq = v;
                    },
                    None => {
                        bad_freq = true;
                    },
                },
                None => {},
            }
        }
        i = i + 1;
    }
    assert(all.take(i as int) =~= all);
    HeaderInfo { captured, freq, bad_freq }
}

} // verus!
