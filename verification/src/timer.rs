//! The duration parser: tokens such as `10s`, `5m`, `2h` are accumulated
//! into a running total of seconds, with a one-shot-per-unit policy and a
//! fail-soft reading of malformed digit runs.

use vstd::prelude::*;

use crate::TimeResult;
use crate::errors::{CountError, CountResult};
use crate::text::{
    all_digits, contains_char, digits_val, find_char, first_pos, is_digit, lemma_digits_val_nonneg,
    lemma_first_pos, parse_chars_u64, parsed_or_zero,
};

verus! {

/// Accumulates duration tokens.  Each unit may contribute once; a later
/// token for an already-seen unit is consumed but adds nothing.
pub struct Timer {
    pub timer: u64,
    pub seconds: bool,
    pub minutes: bool,
    pub hours: bool,
}

/// `s` contains a decimal digit immediately followed by the unit letter `u`.
pub open spec fn has_unit_match(s: Seq<char>, u: char) -> bool {
    exists|i: int| 0 <= i && i + 1 < s.len() && is_digit(#[trigger] s[i]) && s[i + 1] == u
}

/// A token the duration parser consumes: free of `-` and holding a digit
/// directly followed by one of the three unit letters.
pub open spec fn accepts(s: Seq<char>) -> bool {
    &&& !s.contains('-')
    &&& (has_unit_match(s, 's') || has_unit_match(s, 'm') || has_unit_match(s, 'h'))
}

/// Clamps a mathematical value into `u64`.
pub open spec fn sat_u64(x: int) -> u64 {
    if x > u64::MAX {
        u64::MAX
    } else if x < 0 {
        0
    } else {
        x as u64
    }
}

/// The fail-soft value of the run of characters before the first `u` in `s`.
pub open spec fn unit_prefix_value(s: Seq<char>, u: char) -> int {
    parsed_or_zero(s.take(first_pos(s, u)), u64::MAX as int)
}

/// The seconds one token contributes, given which units were already seen:
/// the value before the unit letter times the unit's multiplier, clamped to
/// `u64`, or `0` when the unit was seen before or no unit matches.
pub open spec fn step_contribution(t: Timer, s: Seq<char>) -> u64 {
    if !t.seconds && has_unit_match(s, 's') {
        sat_u64(unit_prefix_value(s, 's'))
    } else if !t.minutes && has_unit_match(s, 'm') {
        sat_u64(unit_prefix_value(s, 'm') * 60)
    } else if !t.hours && has_unit_match(s, 'h') {
        sat_u64(unit_prefix_value(s, 'h') * 3600)
    } else {
        0
    }
}

/// The unit flags after one token: the arm that matched is marked seen.
pub open spec fn step_flags(t: Timer, s: Seq<char>) -> Timer {
    if !t.seconds && has_unit_match(s, 's') {
        Timer { seconds: true, ..t }
    } else if !t.minutes && has_unit_match(s, 'm') {
        Timer { minutes: true, ..t }
    } else if !t.hours && has_unit_match(s, 'h') {
        Timer { hours: true, ..t }
    } else {
        t
    }
}

/// The whole parser state after one consumed token: flags stepped and the
/// token's contribution added to the total, saturating at `u64::MAX`.
pub open spec fn step_state(t: Timer, s: Seq<char>) -> Timer {
    let f = step_flags(t, s);
    Timer { timer: sat_u64(t.timer + step_contribution(t, s)), ..f }
}

/// The parser state after consuming the accepted prefix of `toks`.
pub open spec fn run_state(t: Timer, toks: Seq<Seq<char>>) -> Timer
    decreases toks.len(),
{
    if toks.len() == 0 || !accepts(toks[0]) {
        t
    } else {
        run_state(step_state(t, toks[0]), toks.drop_first())
    }
}

/// How many leading tokens of `toks` the parser consumes.
pub open spec fn consumed_len(toks: Seq<Seq<char>>) -> int
    decreases toks.len(),
{
    if toks.len() == 0 || !accepts(toks[0]) {
        0
    } else {
        1 + consumed_len(toks.drop_first())
    }
}

/// One of the three unit letters.
pub open spec fn is_unit(u: char) -> bool {
    u == 's' || u == 'm' || u == 'h'
}

/// How many seconds one step of a unit is worth.
pub open spec fn unit_mult(u: char) -> int {
    if u == 's' {
        1
    } else if u == 'm' {
        60
    } else if u == 'h' {
        3600
    } else {
        0
    }
}

/// Whether `t` has already taken a token for the unit `u`.
pub open spec fn unit_seen(t: Timer, u: char) -> bool {
    if u == 's' {
        t.seconds
    } else if u == 'm' {
        t.minutes
    } else if u == 'h' {
        t.hours
    } else {
        true
    }
}

/// `s` is exactly a duration token: a non-empty digit run reading as `n`,
/// closed by the unit letter `u`.
pub open spec fn is_valid_token(s: Seq<char>, n: u64, u: char) -> bool {
    &&& s.len() >= 2
    &&& all_digits(s.take(s.len() - 1))
    &&& s.last() == u
    &&& digits_val(s.take(s.len() - 1)) == n
}

/// The sum of value times unit multiplier over paired sequences.
pub open spec fn units_total(vals: Seq<u64>, units: Seq<char>) -> int
    decreases vals.len(),
{
    if vals.len() == 0 || units.len() == 0 {
        0
    } else {
        vals[0] * unit_mult(units[0]) + units_total(vals.drop_first(), units.drop_first())
    }
}

proof fn lemma_units_total_nonneg(vals: Seq<u64>, units: Seq<char>)
    ensures
        units_total(vals, units) >= 0,
    decreases vals.len(),
{
    if vals.len() > 0 && units.len() > 0 {
        let u = units[0];
        if u == 's' {
        } else if u == 'm' {
        } else if u == 'h' {
        } else {
        }
        lemma_units_total_nonneg(vals.drop_first(), units.drop_first());
    }
}

/// A well-formed token is accepted, matches its own unit letter and no
/// other, and its leading segment reads back as its value.
proof fn lemma_token_shape(s: Seq<char>, n: u64, u: char)
    requires
        is_valid_token(s, n, u),
        is_unit(u),
    ensures
        accepts(s),
        has_unit_match(s, u),
        u != 's' ==> !has_unit_match(s, 's'),
        u != 'm' ==> !has_unit_match(s, 'm'),
        u != 'h' ==> !has_unit_match(s, 'h'),
        unit_prefix_value(s, u) == n,
{
    let digits = s.take(s.len() - 1);
    assert forall|i: int| 0 <= i < s.len() - 1 implies is_digit(s[i]) by {
        assert(digits[i] == s[i]);
    }
    // The token holds no '-'.
    assert(!s.contains('-')) by {
        if s.contains('-') {
            let i = choose|i: int| 0 <= i < s.len() && s[i] == '-';
            if i < s.len() - 1 {
                assert(is_digit(s[i]));
            } else {
                assert(s[i] == u);
            }
        }
    }
    // The digit just before the closing letter witnesses the unit match.
    assert(is_digit(s[s.len() - 2]) && s[s.len() - 1] == u);
    assert(has_unit_match(s, u));
    // No other unit letter occurs after a digit.
    assert forall|x: char| is_unit(x) && x != u implies !has_unit_match(s, x) by {
        if has_unit_match(s, x) {
            let i = choose|i: int|
                0 <= i && i + 1 < s.len() && is_digit(#[trigger] s[i]) && s[i + 1] == x;
            if i + 1 < s.len() - 1 {
                assert(is_digit(s[i + 1]));
            } else {
                assert(s[i + 1] == u);
            }
        }
    }
    // The unit letter first occurs at the very end, so the leading segment
    // is the whole digit run.
    assert(s[s.len() - 1] == u);
    assert(s.contains(u));
    lemma_first_pos(s, u);
    assert(first_pos(s, u) == s.len() - 1) by {
        if first_pos(s, u) < s.len() - 1 {
            assert(is_digit(s[first_pos(s, u)]));
        }
    }
    assert(s.take(first_pos(s, u)) == digits);
    assert(parsed_or_zero(digits, u64::MAX as int) == n);
}

/// For any sequence of well-formed duration tokens whose units are
/// distinct and all still unseen, the parser consumes every token and the
/// total grows by exactly the sum of value times unit multiplier — in
/// whatever order the tokens come.
pub proof fn lemma_distinct_units_sum(
    t: Timer,
    toks: Seq<Seq<char>>,
    vals: Seq<u64>,
    units: Seq<char>,
)
    requires
        toks.len() == vals.len(),
        toks.len() == units.len(),
        forall|i: int|
            0 <= i < toks.len() ==> is_valid_token(#[trigger] toks[i], vals[i], units[i]),
        forall|i: int| 0 <= i < toks.len() ==> is_unit(#[trigger] units[i]),
        forall|i: int, j: int| 0 <= i < j < toks.len() ==> units[i] != units[j],
        forall|i: int| 0 <= i < toks.len() ==> !unit_seen(t, #[trigger] units[i]),
        t.timer + units_total(vals, units) <= u64::MAX,
    ensures
        run_state(t, toks).timer == t.timer + units_total(vals, units),
        consumed_len(toks) == toks.len(),
    decreases toks.len(),
{
    if toks.len() > 0 {
        let s0 = toks[0];
        let n0 = vals[0];
        let u0 = units[0];
        lemma_token_shape(s0, n0, u0);
        lemma_units_total_nonneg(vals.drop_first(), units.drop_first());
        assert(n0 * unit_mult(u0) + units_total(vals.drop_first(), units.drop_first())
            == units_total(vals, units));
        assert(n0 * unit_mult(u0) >= 0 && n0 * unit_mult(u0) <= units_total(vals, units)) by {
            if u0 == 's' {
            } else if u0 == 'm' {
            } else {
            }
        }
        let t1 = step_state(t, s0);
        assert(step_contribution(t, s0) == n0 * unit_mult(u0)) by {
            assert(!unit_seen(t, u0));
            assert(unit_prefix_value(s0, u0) == n0);
            if u0 == 's' {
                assert(!t.seconds);
                assert(step_contribution(t, s0) == sat_u64(unit_prefix_value(s0, 's')));
            } else if u0 == 'm' {
                assert(!has_unit_match(s0, 's'));
                assert(!t.minutes);
                assert(step_contribution(t, s0) == sat_u64(unit_prefix_value(s0, 'm') * 60));
                assert(0 <= n0 * 60 <= u64::MAX);
            } else {
                assert(u0 == 'h');
                assert(!has_unit_match(s0, 's') && !has_unit_match(s0, 'm'));
                assert(!t.hours);
                assert(step_contribution(t, s0) == sat_u64(unit_prefix_value(s0, 'h') * 3600));
                assert(0 <= n0 * 3600 <= u64::MAX);
            }
        }
        assert(t1.timer == t.timer + n0 * unit_mult(u0));
        assert(forall|x: char| is_unit(x) && x != u0 ==> unit_seen(t1, x) == unit_seen(t, x));
        let rtoks = toks.drop_first();
        let rvals = vals.drop_first();
        let runits = units.drop_first();
        assert forall|i: int| 0 <= i < rtoks.len() implies is_valid_token(
            #[trigger] rtoks[i],
            rvals[i],
            runits[i],
        ) && is_unit(runits[i]) && !unit_seen(t1, runits[i]) by {
            assert(rtoks[i] == toks[i + 1]);
            assert(rvals[i] == vals[i + 1]);
            assert(runits[i] == units[i + 1]);
            assert(units[i + 1] != u0);
        }
        assert forall|i: int, j: int| 0 <= i < j < rtoks.len() implies #[trigger] runits[i]
            != #[trigger] runits[j] by {
            assert(runits[i] == units[i + 1]);
            assert(runits[j] == units[j + 1]);
        }
        lemma_distinct_units_sum(t1, rtoks, rvals, runits);
    }
}

/// A second token for the same unit is ignored: parsing `[s1, s2]`, both
/// tokens closed by the unit letter `u`, leaves exactly the state that
/// parsing `[s1]` alone leaves, whatever was accumulated before.
pub proof fn lemma_repeated_unit_ignored(
    t: Timer,
    s1: Seq<char>,
    s2: Seq<char>,
    n1: u64,
    n2: u64,
    u: char,
)
    requires
        is_valid_token(s1, n1, u),
        is_valid_token(s2, n2, u),
        is_unit(u),
    ensures
        run_state(t, seq![s1, s2]) == run_state(t, seq![s1]),
        consumed_len(seq![s1, s2]) == 2,
{
    lemma_token_shape(s1, n1, u);
    lemma_token_shape(s2, n2, u);
    let t1 = step_state(t, s1);
    assert(unit_seen(t1, u)) by {
        if u == 's' {
        } else if u == 'm' {
        } else {
        }
    }
    assert(step_state(t1, s2) == t1) by {
        assert(step_contribution(t1, s2) == 0);
        assert(step_flags(t1, s2) == t1);
        assert(sat_u64(t1.timer + 0) == t1.timer);
    }
    assert(seq![s1, s2].drop_first() =~= seq![s2]);
    assert(seq![s1].drop_first() =~= Seq::<Seq<char>>::empty());
    assert(seq![s2].drop_first() =~= Seq::<Seq<char>>::empty());
    assert(run_state(t1, Seq::<Seq<char>>::empty()) == t1);
    assert(run_state(t, seq![s1]) == t1);
    assert(run_state(t, seq![s1, s2]) == run_state(t1, seq![s2]));
    assert(run_state(t1, seq![s2]) == step_state(t1, s2));
    assert(consumed_len(Seq::<Seq<char>>::empty()) == 0);
    assert(consumed_len(seq![s2]) == 1);
    assert(consumed_len(seq![s1, s2]) == 2);
}

/// A consumed token whose leading segment — the characters before the
/// first occurrence of each unit letter — is empty or not all digits
/// contributes exactly `0`, and is still removed from the input.
pub proof fn lemma_malformed_token_zero(t: Timer, s: Seq<char>)
    requires
        accepts(s),
        s.take(first_pos(s, 's')).len() == 0 || !all_digits(s.take(first_pos(s, 's'))),
        s.take(first_pos(s, 'm')).len() == 0 || !all_digits(s.take(first_pos(s, 'm'))),
        s.take(first_pos(s, 'h')).len() == 0 || !all_digits(s.take(first_pos(s, 'h'))),
    ensures
        run_state(t, seq![s]).timer == t.timer,
        consumed_len(seq![s]) == 1,
{
    assert(step_contribution(t, s) == 0);
    assert(step_state(t, s).timer == sat_u64(t.timer + 0));
    assert(seq![s].drop_first() =~= Seq::<Seq<char>>::empty());
    assert(run_state(step_state(t, s), Seq::<Seq<char>>::empty()) == step_state(t, s));
    assert(consumed_len(Seq::<Seq<char>>::empty()) == 0);
    assert(run_state(t, seq![s]) == step_state(t, s));
}

/// `s` holds a decimal digit immediately followed by `u`.
fn has_unit(s: &str, u: char) -> (r: bool)
    ensures
        r == has_unit_match(s@, u),
{
    let len: usize = s.unicode_len();
    if len < 2 {
        return false;
    }
    let mut i: usize = 0;
    while i + 1 < len
        invariant
            i + 1 <= len,
            len == s@.len(),
            forall|j: int| 0 <= j < i ==> !(is_digit(#[trigger] s@[j]) && s@[j + 1] == u),
        decreases len - i,
    {
        let c = s.get_char(i);
        let d = s.get_char(i + 1);
        if c >= '0' && c <= '9' && d == u {
            proof {
                assert(is_digit(s@[i as int]) && s@[i as int + 1] == u);
            }
            return true;
        }
        i += 1;
    }
    false
}

impl Timer {
    /// A fresh parser: nothing accumulated, no unit seen.
    pub fn new() -> (r: Self)
        ensures
            r == (Timer { timer: 0, seconds: false, minutes: false, hours: false }),
    {
        Timer { timer: 0, seconds: false, minutes: false, hours: false }
    }

    /// Consumes the accepted prefix of `args` (tokens free of `-` that hold
    /// a digit followed by `s`, `m` or `h`), removing it from the caller's
    /// list, and returns the accumulated total as a computed duration.
    pub fn find_time(&mut self, args: &mut Vec<String>) -> (r: TimeResult)
        ensures
            *final(self) == run_state(*old(self), old(args).deep_view()),
            final(args).deep_view() == old(args).deep_view().skip(
                consumed_len(old(args).deep_view()),
            ),
            r == TimeResult::Computed(run_state(*old(self), old(args).deep_view()).timer),
    {
        let ghost orig_t = *self;
        let ghost orig_toks = old(args).deep_view();
        let ghost mut k: int = 0;
        proof {
            assert(orig_toks.skip(0) =~= orig_toks);
        }
        while args.len() > 0
            invariant
                0 <= k <= orig_toks.len(),
                args.deep_view() =~= orig_toks.skip(k),
                run_state(orig_t, orig_toks) == run_state(*self, args.deep_view()),
                consumed_len(orig_toks) == k + consumed_len(args.deep_view()),
            ensures
                args.len() == 0 || !accepts(args.deep_view()[0]),
            decreases args.len(),
        {
            let ghost toks_here = args.deep_view();
            let ghost self_pre = *self;
            let dash = contains_char(args[0].as_str(), '-');
            let unit_found = has_unit(args[0].as_str(), 's') || has_unit(args[0].as_str(), 'm')
                || has_unit(args[0].as_str(), 'h');
            proof {
                assert(args@[0]@ == toks_here[0]);
            }
            if dash || !unit_found {
                proof {
                    assert(!accepts(toks_here[0]));
                }
                break ;
            }
            proof {
                assert(accepts(toks_here[0]));
            }
            let tok = args.remove(0);
            let stepped = self.get_time(&tok);
            match stepped {
                Ok(time) => {
                    self.timer = self.timer.saturating_add(time);
                }
                Err(_) => {
                    // `get_time` never fails; see its contract.
                }
            }
            proof {
                assert(args.deep_view() =~= toks_here.drop_first());
                assert(toks_here.drop_first() =~= orig_toks.skip(k + 1));
                assert(tok@ == toks_here[0]);
                assert(*self == step_state(self_pre, toks_here[0]));
                assert(run_state(self_pre, toks_here) == run_state(*self, args.deep_view()));
                assert(consumed_len(toks_here) == 1 + consumed_len(args.deep_view()));
                k = k + 1;
            }
        }
        proof {
            if args.len() > 0 {
                assert(consumed_len(args.deep_view()) == 0);
            } else {
                assert(args.deep_view() =~= Seq::<Seq<char>>::empty());
                assert(consumed_len(args.deep_view()) == 0);
            }
            assert(run_state(*self, args.deep_view()) == *self);
        }
        TimeResult::Computed(self.timer)
    }

    /// Reads one token: picks the first unit arm (`s`, then `m`, then `h`)
    /// whose unit is unseen and matched, marks it seen, and returns the
    /// fail-soft value before the unit letter times its multiplier.  Never
    /// fails; a token matching no free arm is worth `0`.
    pub fn get_time(&mut self, incoming_str: &String) -> (r: CountResult<u64>)
        ensures
            r == Ok::<u64, CountError>(step_contribution(*old(self), incoming_str@)),
            *final(self) == step_flags(*old(self), incoming_str@),
    {
        let s = incoming_str.as_str();
        if !self.seconds && has_unit(s, 's') {
            self.seconds = true;
            Ok(self.value_before(s, 's', 1))
        } else if !self.minutes && has_unit(s, 'm') {
            self.minutes = true;
            Ok(self.value_before(s, 'm', 60))
        } else if !self.hours && has_unit(s, 'h') {
            self.hours = true;
            Ok(self.value_before(s, 'h', 3600))
        } else {
            Ok(0)
        }
    }

    /// The fail-soft value before the first `u` in `s`, times `mult`,
    /// saturating at `u64::MAX`.
    fn value_before(&self, s: &str, u: char, mult: u64) -> (r: u64)
        requires
            has_unit_match(s@, u),
            mult >= 1,
        ensures
            r == sat_u64(unit_prefix_value(s@, u) * mult),
    {
        proof {
            let w = choose|i: int|
                0 <= i && i + 1 < s@.len() && is_digit(#[trigger] s@[i]) && s@[i + 1] == u;
            assert(s@[w + 1] == u);
            assert(s@.contains(u));
            lemma_first_pos(s@, u);
        }
        let p = match find_char(s, u) {
            Some(p) => p,
            None => {
                proof {
                    assert(false);
                }
                0
            }
        };
        let v = parse_chars_u64(s, p);
        proof {
            let pre = s@.take(first_pos(s@, u));
            if pre.len() > 0 && all_digits(pre) {
                lemma_digits_val_nonneg(pre);
            }
            assert(unit_prefix_value(s@, u) >= 0);
        }
        match v.checked_mul(mult) {
            Some(prod) => prod,
            None => u64::MAX,
        }
    }
}

/// The fail-soft value of the characters of `time` before `position`: a
/// non-empty all-digit run that fits a `u64`, or else `0`.
pub fn parse_time(time: &String, position: usize) -> (r: u64)
    requires
        position <= time@.len(),
    ensures
        r == parsed_or_zero(time@.take(position as int), u64::MAX as int),
{
    parse_chars_u64(time.as_str(), position)
}

} // verus!
