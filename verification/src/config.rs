//! The settings: the blocked sites, how each is blocked, and the times of
//! day that a schedule is made of.

use vstd::prelude::*;
use crate::text::string_of;

verus! {

/// Whether whole seconds since midnight and nanoseconds make a time of day
/// as `chrono::NaiveTime` admits one: a leap second (nanoseconds of
/// 1_000_000_000 and more) only in the last second of a minute.
pub open spec fn valid_time(secs: int, nanos: int) -> bool {
    &&& 0 <= secs < 86400
    &&& 0 <= nanos < 2_000_000_000
    &&& nanos >= 1_000_000_000 ==> secs % 60 == 59
}

/// A time of day as `chrono::NaiveTime` holds it: whole seconds since
/// midnight, and nanoseconds within the second.
#[derive(Clone, Copy, Debug, PartialEq, Eq, Structural)]
pub struct TimeOfDay {
    secs: u32,
    nanos: u32,
}

impl TimeOfDay {
    #[verifier::type_invariant]
    spec fn valid(self) -> bool {
        valid_time(self.secs as int, self.nanos as int)
    }

    /// Whole seconds since midnight.
    pub closed spec fn seconds(self) -> int {
        self.secs as int
    }

    /// Nanoseconds within the second.
    pub closed spec fn nanoseconds(self) -> int {
        self.nanos as int
    }

    /// The time `secs` seconds and `nanos` nanoseconds after midnight, when
    /// that is a valid time (`NaiveTime::from_num_seconds_from_midnight_opt`).
    pub fn from_secs_nanos(secs: u32, nanos: u32) -> (res: Option<TimeOfDay>)
        ensures
            res is Some <==> valid_time(secs as int, nanos as int),
            res matches Some(t) ==> t.seconds() == secs && t.nanoseconds() == nanos,
    {
        if secs < 86400 && nanos < 2_000_000_000 && (nanos < 1_000_000_000 || secs % 60 == 59) {
            Some(TimeOfDay { secs, nanos })
        } else {
            None
        }
    }

    /// The time `hour:min:sec`, when each part is in range
    /// (`NaiveTime::from_hms_opt`).
    pub fn from_hms(hour: u32, min: u32, sec: u32) -> (res: Option<TimeOfDay>)
        ensures
            res is Some <==> hour < 24 && min < 60 && sec < 60,
            res matches Some(t) ==> t.seconds() == hour * 3600 + min * 60 + sec
                && t.nanoseconds() == 0,
    {
        if hour < 24 && min < 60 && sec < 60 {
            Some(TimeOfDay { secs: hour * 3600 + min * 60 + sec, nanos: 0 })
        } else {
            None
        }
    }

    /// Whole seconds since midnight.
    pub fn secs(&self) -> (res: u32)
        ensures
            res == self.seconds(),
            valid_time(res as int, self.nanoseconds()),
    {
        proof {
            use_type_invariant(self);
        }
        self.secs
    }

    /// Nanoseconds within the second.
    pub fn nanos(&self) -> (res: u32)
        ensures
            res == self.nanoseconds(),
            valid_time(self.seconds(), res as int),
    {
        proof {
            use_type_invariant(self);
        }
        self.nanos
    }

    /// Two times with the same seconds and nanoseconds are the same time.
    pub proof fn lemma_same_time(a: TimeOfDay, b: TimeOfDay)
        requires
            a.seconds() == b.seconds(),
            a.nanoseconds() == b.nanoseconds(),
        ensures
            a == b,
    {
    }

    /// Whether `self` is not later than `other`, in the order of
    /// `NaiveTime` (by seconds, then nanoseconds).
    pub fn le(&self, other: &TimeOfDay) -> (res: bool)
        ensures
            res == time_le(*self, *other),
    {
        self.secs < other.secs || (self.secs == other.secs && self.nanos <= other.nanos)
    }
}

/// `a` is not later than `b`.
pub open spec fn time_le(a: TimeOfDay, b: TimeOfDay) -> bool {
    a.seconds() < b.seconds() || (a.seconds() == b.seconds() && a.nanoseconds()
        <= b.nanoseconds())
}


/// The decimal digit `d` as a character.
pub open spec fn digit_char(d: int) -> char {
    (48 + d) as char
}

/// `n` written with two decimal digits, as `%H` and `%M` write an hour and
/// a minute.
pub open spec fn two_digits(n: int) -> Seq<char> {
    seq![digit_char(n / 10), digit_char(n % 10)]
}

/// The time written as `HH:MM`, as chrono's `format("%H:%M")` writes it.
pub open spec fn hm_text(t: TimeOfDay) -> Seq<char> {
    two_digits(t.seconds() / 3600) + seq![':'] + two_digits((t.seconds() / 60) % 60)
}

fn digit(d: u32) -> (c: char)
    requires
        d < 10,
    ensures
        c == digit_char(d as int),
{
    let b: u8 = 48 + d as u8;
    b as char
}

impl TimeOfDay {
    /// The time written as `HH:MM`.
    pub fn to_hm_string(&self) -> (res: String)
        ensures
            res@ == hm_text(*self),
    {
        proof {
            use_type_invariant(self);
        }
        let h = self.secs / 3600;
        let m = (self.secs / 60) % 60;
        let cs = vec![digit(h / 10), digit(h % 10), ':', digit(m / 10), digit(m % 10)];
        let res = string_of(cs.as_slice());
        assert(res@ =~= hm_text(*self));
        res
    }
}

/// How a site is blocked: at all times, or from `start` to `end` each day.
/// A window whose end comes before its start runs over midnight.
#[derive(Clone, Copy, Debug, PartialEq, Eq, Structural)]
pub enum BlockMode {
    Always,
    Scheduled { start: TimeOfDay, end: TimeOfDay },
}

impl BlockMode {
    /// Whether a site with this mode is blocked at `now`: always, or for a
    /// window from `start` to `end` (both included) when `now` lies in it;
    /// a window with `end` before `start` covers the times from `start` to
    /// midnight and from midnight to `end`.
    pub open spec fn active_at(self, now: TimeOfDay) -> bool {
        match self {
            BlockMode::Always => true,
            BlockMode::Scheduled { start, end } => if time_le(start, end) {
                time_le(start, now) && time_le(now, end)
            } else {
                time_le(start, now) || time_le(now, end)
            },
        }
    }

    /// Whether a site with this mode is blocked at `now` (`active_at`).
    pub fn is_active_at(&self, now: &TimeOfDay) -> (res: bool)
        ensures
            res == self.active_at(*now),
    {
        match self {
            BlockMode::Always => true,
            BlockMode::Scheduled { start, end } => {
                if start.le(end) {
                    start.le(now) && now.le(end)
                } else {
                    start.le(now) || now.le(end)
                }
            },
        }
    }
}

/// `a` is strictly earlier than `b`.
pub open spec fn time_lt(a: TimeOfDay, b: TimeOfDay) -> bool {
    !time_le(b, a)
}

/// A window that runs over midnight (its end before its start) blocks
/// exactly the times that do not lie strictly between its end and its
/// start; a window within one day blocks exactly the times from its start
/// to its end.
pub proof fn lemma_window_coverage(start: TimeOfDay, end: TimeOfDay, now: TimeOfDay)
    ensures
        time_lt(end, start) ==> (BlockMode::Scheduled { start, end }.active_at(now) <==> !(
        time_lt(end, now) && time_lt(now, start))),
        !time_lt(end, start) ==> (BlockMode::Scheduled { start, end }.active_at(now) <==> (
        time_le(start, now) && time_le(now, end))),
{
}

/// A blocked site: its address and how it is blocked.
#[derive(Clone, Debug, PartialEq, Eq)]
pub struct BlockedSite {
    pub url: String,
    pub mode: BlockMode,
}

impl BlockedSite {
    /// A copy of the site.
    pub fn copy(&self) -> (res: BlockedSite)
        ensures
            res == *self,
    {
        BlockedSite { url: self.url.clone(), mode: self.mode }
    }
}

/// The settings: whether the program starts with the system, and the
/// blocked sites in the order they were added.
#[derive(Clone, Debug, PartialEq, Eq)]
pub struct Config {
    pub autostart: bool,
    pub sites: Vec<BlockedSite>,
}

impl Default for Config {
    /// No autostart and no sites.
    fn default() -> (res: Config)
        ensures
            !res.autostart,
            res.sites@.len() == 0,
    {
        Config { autostart: false, sites: Vec::new() }
    }
}


/// Where the settings file is kept on Linux.
pub const CONFIG_PATH: &'static str = "/etc/bloqueador-web/config.toml";

/// The path of the settings file on Linux (on Windows it lies beside the
/// executable, which only the caller can find).
pub fn get_config_path() -> (path: String)
    ensures
        path@ == CONFIG_PATH@,
{
    CONFIG_PATH.to_owned()
}

} // verus!
