//! The clock-target parser: a single `H:M` or `H:M:S` token is validated,
//! read field by field, and turned into the number of seconds until the
//! next occurrence of that wall-clock time — today, or tomorrow when the
//! time of day has already passed.

use vstd::prelude::*;

use crate::TimeResult;
use crate::errors::{ParseError, TimeParseResult};
use crate::text::{
    all_digits, digit_val, digits_val, is_digit, parse_chars_u32, parsed_or_zero, split_on,
    split_str,
};
use crate::timer::sat_u64;

verus! {

/// A calendar instant, as plain values: a day number and the second
/// within that day.
#[derive(Clone, Copy, Debug, PartialEq, Eq, Structural)]
pub struct Moment {
    pub days: u64,
    pub secs: u32,
}

impl Moment {
    /// The second-of-day is inside one day and the day number is bounded,
    /// so totals in seconds stay inside `u64`.
    pub open spec fn wf(self) -> bool {
        self.secs < 86400 && self.days <= 100_000_000_000
    }

    /// This instant as a total count of seconds.
    pub open spec fn total_secs(self) -> int {
        self.days * 86400 + self.secs
    }
}

/// The magnitude of the distance between two instants, in seconds.
pub open spec fn diff_secs(a: Moment, b: Moment) -> int {
    if a.total_secs() < b.total_secs() {
        b.total_secs() - a.total_secs()
    } else {
        a.total_secs() - b.total_secs()
    }
}

/// A field of a clock-target token: one or two characters, all digits,
/// reading as at most `bound`.
pub open spec fn field_ok(f: Seq<char>, bound: int) -> bool {
    1 <= f.len() <= 2 && all_digits(f) && digits_val(f) <= bound
}

/// A well-formed clock-target token: two or three colon-separated fields,
/// hours at most 23, minutes and seconds at most 59.
pub open spec fn valid_clock_token(s: Seq<char>) -> bool {
    let fs = split_on(s, ':');
    &&& fs.len() == 2 || fs.len() == 3
    &&& field_ok(fs[0], 23)
    &&& field_ok(fs[1], 59)
    &&& (fs.len() == 3 ==> field_ok(fs[2], 59))
}

/// The second-of-day a list of parsed fields aims at: hours, minutes and —
/// when present — seconds, each read fail-soft.
pub open spec fn fields_tod(fs: Seq<Seq<char>>) -> int {
    parsed_or_zero(fs[0], u32::MAX as int) * 3600 + parsed_or_zero(fs[1], u32::MAX as int) * 60 + (
    if fs.len() >= 3 {
        parsed_or_zero(fs[2], u32::MAX as int)
    } else {
        0
    })
}

/// The seconds to wait from `now` until the next occurrence of the
/// second-of-day `tod`: later today, or — after a roll-over — tomorrow.
pub open spec fn wait_secs(tod: int, now: Moment) -> int {
    if tod < now.secs {
        86400 - now.secs + tod
    } else {
        tod - now.secs
    }
}

/// What one run over a field list adds to an alarm's total: the wait until
/// the target for two or three fields, nothing otherwise.
pub open spec fn alarm_added(fs: Seq<Seq<char>>, now: Moment) -> int {
    if fs.len() == 2 || fs.len() == 3 {
        wait_secs(fields_tod(fs), now)
    } else {
        0
    }
}

/// Accumulates the seconds to wait until a wall-clock target.
pub struct Alarm {
    pub time: u64,
}

impl Alarm {
    /// A fresh alarm with nothing accumulated.
    pub fn new() -> (r: Self)
        ensures
            r == (Alarm { time: 0 }),
    {
        Alarm { time: 0 }
    }

    /// Removes the first argument, validates it as a clock-target token,
    /// and returns the seconds until the next occurrence of that time of
    /// day, read against the local clock; a token that fails validation
    /// yields the parse-failure result and leaves the alarm untouched.
    pub fn set_alarm(&mut self, args: &mut Vec<String>) -> (r: TimeResult)
        requires
            old(args).len() > 0,
        ensures
            final(args)@ == old(args)@.drop_first(),
            !valid_clock_token(old(args)@[0]@) ==> r == TimeResult::ParseFailure && *final(self)
                == *old(self),
            valid_clock_token(old(args)@[0]@) ==> exists|now: Moment|
                now.wf() && now.days < 100_000_000_000 && final(self).time == sat_u64(
                    old(self).time + alarm_added(split_on(old(args)@[0]@, ':'), now),
                ) && r == TimeResult::Computed(final(self).time),
    {
        let tok = args.remove(0);
        proof {
            assert(args@ =~= old(args)@.drop_first());
        }
        match self.check_time(&tok) {
            Ok(times) => {
                let now = local_now();
                let ghost fs = split_on(tok@, ':');
                proof {
                    lemma_valid_fields_small(tok@);
                }
                match self.parse_time(times, now) {
                    Ok(_) => {
                        let total = self.time;
                        proof {
                            assert(now.wf() && now.days < 100_000_000_000 && self.time == sat_u64(
                                old(self).time + alarm_added(fs, now),
                            ));
                        }
                        TimeResult::Computed(total)
                    }
                    Err(_) => {
                        // `parse_time` never fails; see its contract.
                        TimeResult::ParseFailure
                    }
                }
            }
            Err(_) => TimeResult::ParseFailure,
        }
    }

    /// Validates a clock-target token and hands back its colon-separated
    /// fields; exactly the well-formed tokens pass.
    pub fn check_time(&mut self, time: &String) -> (r: TimeParseResult<Vec<String>>)
        ensures
            *final(self) == *old(self),
            r is Ok <==> valid_clock_token(time@),
            r is Ok ==> (r->Ok_0).deep_view() == split_on(time@, ':'),
    {
        let fields = split_str(time.as_str(), ':');
        let n = fields.len();
        proof {
            assert(fields.deep_view().len() == n);
        }
        if n != 2 && n != 3 {
            return Err(ParseError);
        }
        if !field_within(&fields[0], 23) {
            return Err(ParseError);
        }
        if !field_within(&fields[1], 59) {
            return Err(ParseError);
        }
        if n == 3 && !field_within(&fields[2], 59) {
            return Err(ParseError);
        }
        Ok(fields)
    }

    /// Reads two or three already-split fields as a time of day and adds
    /// the wait from `now` until its next occurrence to the running total;
    /// any other number of fields adds nothing.  Never fails.
    pub fn parse_time(&mut self, time: Vec<String>, now: Moment) -> (r: TimeParseResult<bool>)
        requires
            now.wf(),
            now.days < 100_000_000_000,
            (time@.len() == 2 || time@.len() == 3) ==> fields_tod(time.deep_view()) < 86400,
    ensures
            r is Ok,
            final(self).time == sat_u64(old(self).time + alarm_added(time.deep_view(), now)),
    {
        if time.len() == 2 {
            proof {
                reveal_strlit("0");
                assert(digits_val("0"@) == 0) by {
                    assert("0"@.drop_last() =~= Seq::<char>::empty());
                    assert(digits_val(Seq::<char>::empty()) == 0);
                }
                assert(parsed_or_zero("0"@, u32::MAX as int) == 0);
                assert(time.deep_view()[0] == time@[0]@ && time.deep_view()[1] == time@[1]@);
                assert(fields_tod(time.deep_view()) == tod_of(time@[0]@, time@[1]@, "0"@));
            }
            let full_time = get_naive_time(time[0].as_str(), time[1].as_str(), "0", now);
            let durr = find_diff(full_time, now);
            proof {
                lemma_target_wait(time@[0]@, time@[1]@, "0"@, now);
            }
            self.time = self.time.saturating_add(durr);
            return Ok(true);
        }
        if time.len() == 3 {
            proof {
                assert(time.deep_view()[0] == time@[0]@ && time.deep_view()[1] == time@[1]@
                    && time.deep_view()[2] == time@[2]@);
                assert(fields_tod(time.deep_view()) == tod_of(time@[0]@, time@[1]@, time@[2]@));
            }
            let full_time = get_naive_time(
                time[0].as_str(),
                time[1].as_str(),
                time[2].as_str(),
                now,
            );
            let durr = find_diff(full_time, now);
            proof {
                lemma_target_wait(time@[0]@, time@[1]@, time@[2]@, now);
            }
            self.time = self.time.saturating_add(durr);
            return Ok(true);
        }
        proof {
            assert(sat_u64(old(self).time + 0) == old(self).time);
        }
        Ok(true)
    }
}

/// A well-formed token aims inside one day.
proof fn lemma_valid_fields_small(s: Seq<char>)
    requires
        valid_clock_token(s),
    ensures
        fields_tod(split_on(s, ':')) < 86400,
{
    let fs = split_on(s, ':');
    lemma_field_value(fs[0], 23);
    lemma_field_value(fs[1], 59);
    if fs.len() == 3 {
        lemma_field_value(fs[2], 59);
    }
}

/// A well-formed field reads fail-soft as its own digit value.
proof fn lemma_field_value(f: Seq<char>, bound: int)
    requires
        field_ok(f, bound),
        0 <= bound <= 99,
    ensures
        0 <= parsed_or_zero(f, u32::MAX as int) <= bound,
{
    crate::text::lemma_digits_val_nonneg(f);
}

/// The second-of-day three fields aim at.
pub open spec fn tod_of(hours: Seq<char>, minutes: Seq<char>, seconds: Seq<char>) -> int {
    parsed_or_zero(hours, u32::MAX as int) * 3600 + parsed_or_zero(minutes, u32::MAX as int) * 60
        + parsed_or_zero(seconds, u32::MAX as int)
}

/// Decides `field_ok`: one or two characters, all digits, within `bound`.
fn field_within(f: &String, bound: u32) -> (r: bool)
    requires
        bound <= 99,
    ensures
        r == field_ok(f@, bound as int),
{
    let s = f.as_str();
    let len: usize = s.unicode_len();
    if len < 1 || len > 2 {
        return false;
    }
    let c0 = s.get_char(0);
    if c0 < '0' || c0 > '9' {
        proof {
            assert(!is_digit(f@[0]));
        }
        return false;
    }
    if len == 2 {
        let c1 = s.get_char(1);
        if c1 < '0' || c1 > '9' {
            proof {
                assert(!is_digit(f@[1]));
            }
            return false;
        }
    }
    proof {
        assert forall|i: int| 0 <= i < f@.len() implies is_digit(#[trigger] f@[i]) by {
            if i == 0 {
                assert(is_digit(f@[0]));
            } else {
                assert(i == 1);
                assert(is_digit(f@[1]));
            }
        }
        assert(all_digits(f@));
        assert(digits_val(Seq::<char>::empty()) == 0);
        if len == 1 {
            assert(f@.drop_last() =~= Seq::<char>::empty());
            assert(digits_val(f@) == digit_val(f@[0]));
        } else {
            assert(f@.drop_last().drop_last() =~= Seq::<char>::empty());
            assert(f@.drop_last().last() == f@[0]);
            assert(digits_val(f@.drop_last()) == digit_val(f@[0]));
            assert(digits_val(f@) == digit_val(f@[0]) * 10 + digit_val(f@[1]));
        }
        assert(0 <= digits_val(f@) <= 99);
    }
    let v = parse_chars_u32(s);
    v <= bound
}

/// The fail-soft reading of one field as a `u32`.
pub fn parse_time(time: &str) -> (r: u32)
    ensures
        r == parsed_or_zero(time@, u32::MAX as int),
{
    parse_chars_u32(time)
}

/// The target instant: today at the given hours, minutes and seconds, or
/// the same time tomorrow when that time of day has already passed `now`.
pub fn get_naive_time(hours: &str, minutes: &str, seconds: &str, now: Moment) -> (r: Moment)
    requires
        now.wf(),
        now.days < 100_000_000_000,
        tod_of(hours@, minutes@, seconds@) < 86400,
    ensures
        r.wf(),
        r.secs == tod_of(hours@, minutes@, seconds@),
        r.days == now.days + (if tod_of(hours@, minutes@, seconds@) < now.secs {
            1int
        } else {
            0int
        }),
{
    let h = parse_time(hours);
    let m = parse_time(minutes);
    let s = parse_time(seconds);
    let tod: u32 = h * 3600 + m * 60 + s;
    let date: u64 = if tod < now.secs {
        now.days + 1
    } else {
        now.days
    };
    Moment { days: date, secs: tod }
}

/// The magnitude of the distance between two instants, in whole seconds.
pub fn find_diff(time: Moment, now: Moment) -> (r: u64)
    requires
        time.wf(),
        now.wf(),
    ensures
        r == diff_secs(time, now),
{
    let a: u64 = time.days * 86400 + time.secs as u64;
    let b: u64 = now.days * 86400 + now.secs as u64;
    if a < b {
        b - a
    } else {
        a - b
    }
}

/// The wait until a target equals the instant difference after roll-over.
proof fn lemma_target_wait(hours: Seq<char>, minutes: Seq<char>, seconds: Seq<char>, now: Moment)
    requires
        now.wf(),
        now.days < 100_000_000_000,
        tod_of(hours, minutes, seconds) < 86400,
    ensures
        ({
            let tod = tod_of(hours, minutes, seconds);
            let target = Moment {
                days: (now.days + (if tod < now.secs {
                    1int
                } else {
                    0int
                })) as u64,
                secs: tod as u32,
            };
            diff_secs(target, now) == wait_secs(tod, now)
        }),
{
    crate::text::lemma_parsed_nonneg(hours, u32::MAX as int);
    crate::text::lemma_parsed_nonneg(minutes, u32::MAX as int);
    crate::text::lemma_parsed_nonneg(seconds, u32::MAX as int);
}

/// Relies on chrono's `Local::now`, with `NaiveDateTime::date`,
/// `NaiveDateTime::time`, `Datelike::num_days_from_ce` and
/// `Timelike::num_seconds_from_midnight` converting the result to plain
/// values: the local calendar day (days from the common era, an `i32`) and
/// the second within it, documented by chrono to lie in `0..=86399`.
#[verifier::external_body]
fn local_now_raw() -> (r: (i64, u32))
    ensures
        -0x8000_0000 <= r.0 <= 0x7fff_ffff,
        r.1 < 86400,
{
    let now = chrono::Local::now().naive_local();
    let days = chrono::Datelike::num_days_from_ce(&now.date());
    let secs = chrono::Timelike::num_seconds_from_midnight(&now.time());
    (days as i64, secs)
}

/// The local clock as a `Moment`; days before the common era clamp to
/// day zero.
fn local_now() -> (r: Moment)
    ensures
        r.wf(),
        r.days < 100_000_000_000,
{
    let (d, secs) = local_now_raw();
    let date: u64 = if d > 0 {
        d as u64
    } else {
        0
    };
    Moment { days: date, secs }
}

/// A clock target earlier in the day than "now" rolls over to the next
/// calendar day: the wait is a full day less the part of today already
/// spent, and is always strictly positive — never a same-day instant in
/// the past.
pub proof fn lemma_rollover_next_day(tod: int, now: Moment)
    requires
        now.wf(),
        0 <= tod < 86400,
        tod < now.secs,
    ensures
        wait_secs(tod, now) == 86400 - (now.secs - tod),
        0 < wait_secs(tod, now) < 86400,
{
}

/// The wait until any in-range time of day is under one full day, and is
/// zero exactly when the target is the present second.
pub proof fn lemma_wait_in_range(tod: int, now: Moment)
    requires
        now.wf(),
        0 <= tod < 86400,
    ensures
        0 <= wait_secs(tod, now) < 86400,
        wait_secs(tod, now) == 0 <==> tod == now.secs,
{
}

} // verus!
