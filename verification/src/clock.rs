//! The wall clock, read through chrono.

use vstd::prelude::*;

use crate::date::{days_in_month_spec, lemma_pack_unpack, pack_spec, valid_key};
use crate::history::{entry_display, format_history_entry};
use crate::modes::Mode;

verus! {

/// A wall-clock reading broken into calendar and time-of-day components.
pub struct ClockParts {
    pub year: i32,
    pub month: u32,
    pub day: u32,
    pub hour: u32,
    pub minute: u32,
    pub second: u32,
}

/// The component ranges every clock reading satisfies: a real
/// proleptic-Gregorian date and a time of day.
pub open spec fn clock_parts_wf(p: ClockParts) -> bool {
    &&& 1 <= p.month <= 12
    &&& 1 <= p.day
    &&& p.day <= days_in_month_spec(p.year as int, p.month as int)
    &&& p.hour <= 23
    &&& p.minute <= 59
    &&& p.second <= 59
}

/// Relies on chrono::Local::now and chrono's Datelike and Timelike
/// accessors: a chrono date is a real proleptic-Gregorian calendar date, so
/// the month is 1-12 and the day fits the month, and the accessors return
/// hour 0-23, minute 0-59 and second 0-59. Nothing is assumed about which
/// moment the clock reports. chrono's Utc::now aborts on a system clock set
/// before the Unix epoch, so that case is fenced off first and reported as
/// `None`; chrono's timezone lookup can still abort on corrupt timezone
/// data, which no guard here can reach.
#[verifier::external_body]
fn local_now_parts() -> (r: Option<ClockParts>)
    ensures
        (r matches Some(p) ==> clock_parts_wf(p)),
{
    let now = std::time::SystemTime::now();
    if now.duration_since(std::time::UNIX_EPOCH).is_err() {
        return None;
    }
    let t = chrono::Local::now();
    Some(ClockParts {
        year: chrono::Datelike::year(&t),
        month: chrono::Datelike::month(&t),
        day: chrono::Datelike::day(&t),
        hour: chrono::Timelike::hour(&t),
        minute: chrono::Timelike::minute(&t),
        second: chrono::Timelike::second(&t),
    })
}

/// The packed ledger key of a clock reading's date, exactly when the year
/// fits the four-digit range the ledger stores.
pub fn parts_to_key(p: &ClockParts) -> (r: Option<u32>)
    requires
        1 <= p.month <= 12,
        1 <= p.day <= 31,
    ensures
        (r is Some) == (1 <= p.year <= 9999),
        (r matches Some(k) ==> k as int == pack_spec(
            p.year as int,
            p.month as int,
            p.day as int,
        )),
{
    if p.year < 1 || p.year > 9999 {
        return None;
    }
    let y = p.year as u32;
    Some(y * 10000 + p.month * 100 + p.day)
}

/// The history line for a phase ending at a clock reading, exactly when the
/// year fits the four digits of the line format.
pub fn parts_to_entry(p: &ClockParts, m: Mode) -> (r: Option<Vec<u8>>)
    requires
        1 <= p.month <= 12,
        1 <= p.day <= 31,
        p.hour <= 23,
        p.minute <= 59,
        p.second <= 59,
    ensures
        (r is Some) == (1 <= p.year <= 9999),
        (r matches Some(v) ==> v@ == entry_display(
            p.year as int,
            p.month as int,
            p.day as int,
            p.hour as int,
            p.minute as int,
            p.second as int,
            m,
        )),
{
    if p.year < 1 || p.year > 9999 {
        return None;
    }
    Some(format_history_entry(p.year as u32, p.month, p.day, p.hour, p.minute, p.second, m))
}

/// Today's date as a packed contribution key. `None` when the clock cannot
/// be read safely or reports a year outside the four-digit range the
/// ledger can store.
pub fn today_key() -> (r: Option<u32>)
    ensures
        (r matches Some(k) ==> valid_key(k as int)),
{
    let p = match local_now_parts() {
        Some(p) => p,
        None => {
            return None;
        },
    };
    let r = parts_to_key(&p);
    proof {
        if 1 <= p.year <= 9999 {
            lemma_pack_unpack(p.year as int, p.month as int, p.day as int);
        }
    }
    r
}

/// A history line for a phase that ends now, timestamped from the wall
/// clock. `None` when the clock cannot be read safely or reports a year
/// outside the four-digit range the line format can hold.
pub fn now_history_entry(m: Mode) -> (r: Option<Vec<u8>>)
    ensures
        (r matches Some(v) ==> exists|y: int, mo: int, d: int, h: int, mi: int, s: int|
            {
                &&& 1 <= y <= 9999
                &&& 1 <= mo <= 12
                &&& 1 <= d <= 31
                &&& h <= 23
                &&& mi <= 59
                &&& s <= 59
                &&& v@ == entry_display(y, mo, d, h, mi, s, m)
            }),
{
    let p = match local_now_parts() {
        Some(p) => p,
        None => {
            return None;
        },
    };
    let r = parts_to_entry(&p, m);
    proof {
        if r is Some {
            let v = r->Some_0;
            assert(1 <= p.year as int <= 9999 && 1 <= p.month as int <= 12 && 1 <= p.day as int
                <= 31 && p.hour as int <= 23 && p.minute as int <= 59 && p.second as int <= 59 && v@
                == entry_display(
                p.year as int,
                p.month as int,
                p.day as int,
                p.hour as int,
                p.minute as int,
                p.second as int,
                m,
            ));
        }
    }
    r
}

} // verus!
