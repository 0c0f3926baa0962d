use vstd::prelude::*;
use vstd::arithmetic::div_mod::{
    lemma_fundamental_div_mod, lemma_fundamental_div_mod_converse, lemma_mod_bound,
    lemma_mod_multiples_vanish, lemma_div_is_ordered, lemma_div_multiples_vanish,
};
use vstd::string::*;
use crate::text::{chars_to_string, digit_char, digit_to_char, push_all, str_to_chars};

verus! {

/// Day number of 0000-01-01, counted from 1970-01-01.
pub const MIN_DAY: i64 = -719528;

/// Day number of 9999-12-31, counted from 1970-01-01.
pub const MAX_DAY: i64 = 2932896;

/// First second of 0000-01-01 (UTC), counted from the Unix epoch.
pub const MIN_SECS: i64 = -62167219200;

/// Last second of 9999-12-31 (UTC), counted from the Unix epoch.
pub const MAX_SECS: i64 = 253402300799;

/// A UTC instant: seconds from the Unix epoch plus a sub-second part.
/// The range covers exactly the instants that a four-digit-year RFC 3339
/// string can carry, which is what the shard files store.
#[derive(Clone, Copy, PartialEq, Eq, Structural, Debug)]
pub struct Timestamp {
    pub secs: i64,
    pub nanos: u32,
}

impl Timestamp {
    /// Valid instants: within the four-digit-year window, sub-second part
    /// below one second.
    pub open spec fn wf(self) -> bool {
        MIN_SECS <= self.secs <= MAX_SECS && self.nanos < 1_000_000_000
    }

    /// Calendar day holding this instant, counted from 1970-01-01.
    pub open spec fn spec_day(self) -> int {
        self.secs as int / 86400
    }

    pub open spec fn spec_le(self, other: Timestamp) -> bool {
        self.secs < other.secs || (self.secs == other.secs && self.nanos <= other.nanos)
    }

    /// Builds a valid instant, or nothing when the parts are out of range.
    pub fn new(secs: i64, nanos: u32) -> (r: Option<Timestamp>)
        ensures
            match r {
                Some(t) => t.secs == secs && t.nanos == nanos && t.wf(),
                None => !(Timestamp { secs, nanos }).wf(),
            },
    {
        if MIN_SECS <= secs && secs <= MAX_SECS && nanos < 1_000_000_000 {
            Some(Timestamp { secs, nanos })
        } else {
            None
        }
    }

    pub fn le(&self, other: &Timestamp) -> (b: bool)
        ensures
            b == self.spec_le(*other),
    {
        self.secs < other.secs || (self.secs == other.secs && self.nanos <= other.nanos)
    }

    pub fn lt(&self, other: &Timestamp) -> (b: bool)
        ensures
            b == !other.spec_le(*self),
    {
        self.secs < other.secs || (self.secs == other.secs && self.nanos < other.nanos)
    }

    /// Day number of the instant (floor of seconds over a day's seconds).
    pub fn day(&self) -> (d: i64)
        requires
            self.wf(),
        ensures
            d == self.spec_day(),
            MIN_DAY <= d <= MAX_DAY,
    {
        let off: u64 = (self.secs - MIN_SECS) as u64;
        let q: u64 = off / 86400;
        proof {
            lemma_fundamental_div_mod(off as int, 86400);
            lemma_mod_bound(off as int, 86400);
            assert(self.secs as int == 86400 * (MIN_DAY + q as int) + (off as int % 86400)) by {
                assert(MIN_SECS as int == 86400 * (MIN_DAY as int));
            }
            lemma_fundamental_div_mod_converse(
                self.secs as int,
                86400,
                MIN_DAY + q as int,
                off as int % 86400,
            );
            lemma_div_is_ordered(off as int, (MAX_SECS - MIN_SECS) as int, 86400);
            assert((MAX_SECS - MIN_SECS) as int / 86400 == 3652424);
        }
        MIN_DAY + q as i64
    }
}

/// Weekday of a day number: 0 is Sunday through 6 is Saturday
/// (1970-01-01, day 0, was a Thursday, day 4 of its week).
pub open spec fn weekday(day: int) -> int {
    (day + 4) % 7
}

/// First day (the Sunday) of the week holding `day`.
pub open spec fn week_begin(day: int) -> int {
    day - weekday(day)
}

/// The whole Sunday-to-Saturday week around `day` lies inside the window
/// that shard filenames can label.
pub open spec fn week_in_range(day: int) -> bool {
    MIN_DAY <= week_begin(day) && week_begin(day) + 6 <= MAX_DAY
}

pub proof fn lemma_weekday_bounds(day: int)
    ensures
        0 <= weekday(day) < 7,
        week_begin(day) <= day <= week_begin(day) + 6,
{
    lemma_mod_bound(day + 4, 7);
}

/// Every day of a week has that week's own Sunday as its week begin.
pub proof fn lemma_week_begin_of_member(day: int, d: int)
    requires
        week_begin(day) <= d <= week_begin(day) + 6,
    ensures
        week_begin(d) == week_begin(day),
{
    lemma_weekday_bounds(day);
    lemma_fundamental_div_mod(day + 4, 7);
    let wb = week_begin(day);
    let q = (day + 4) / 7;
    assert(wb + 4 == 7 * q);
    let k = d - wb;
    assert(d + 4 == 7 * q + k);
    lemma_mod_bound(day + 4, 7);
    lemma_mod_multiples_vanish(q, k, 7);
    assert((d + 4) % 7 == k % 7);
    assert(k % 7 == k) by {
        vstd::arithmetic::div_mod::lemma_small_mod(k as nat, 7);
    }
}

/// Week begins never decrease as days advance.
pub proof fn lemma_week_begin_mono(d1: int, d2: int)
    requires
        d1 <= d2,
    ensures
        week_begin(d1) <= week_begin(d2),
{
    lemma_weekday_bounds(d1);
    lemma_weekday_bounds(d2);
    if week_begin(d2) < week_begin(d1) {
        lemma_week_begin_of_member(d1, d2);
    }
}

/// Sunday and Saturday around a day: the pair `(week_begin, week_begin + 6)`.
pub fn find_week(day: i64) -> (r: (i64, i64))
    requires
        MIN_DAY <= day <= MAX_DAY,
    ensures
        r.0 == week_begin(day as int),
        r.1 == r.0 + 6,
        r.0 <= day <= r.1,
        weekday(r.0 as int) == 0,
{
    let off: u64 = (day - MIN_DAY) as u64;
    let w: u64 = (off + 6) % 7;
    proof {
        lemma_mod_bound(off as int + 6, 7);
        lemma_mod_multiples_vanish(102790, day as int + 4, 7);
        assert(off as int + 6 == 7 * 102790 + (day as int + 4));
        assert(w as int == weekday(day as int));
        lemma_weekday_bounds(day as int);
        lemma_week_begin_of_member(day as int, week_begin(day as int));
        lemma_fundamental_div_mod(week_begin(day as int) + 4, 7);
    }
    (day - w as i64, day - w as i64 + 6)
}

/// What `%Y-%m-%d` shows for a day number: the ten characters
/// `YYYY-MM-DD` of the proleptic Gregorian date, zero-padded.
pub uninterp spec fn ymd_label(day: int) -> Seq<char>;

/// Relies on chrono's `NaiveDate::from_epoch_days` (day number from
/// 1970-01-01) and on `%Y-%m-%d` formatting: the label is a function of the
/// day number alone, and within the four-digit-year window it is ten
/// characters, the zero-padded year, month and day.
#[verifier::external_body]
fn format_day(day: i64) -> (r: String)
    requires
        MIN_DAY <= day <= MAX_DAY,
    ensures
        r@ == ymd_label(day as int),
        r@.len() == 10,
{
    let date = chrono::NaiveDate::from_epoch_days(day as i32)
        .expect("day within the four-digit-year window");
    format!("{}", date.format("%Y-%m-%d"))
}

/// Name of the shard file for the week holding `day`:
/// `<sunday>-<saturday>.json` with both ends as `%Y-%m-%d` labels.
pub open spec fn spec_shard_filename(day: int) -> Seq<char> {
    ymd_label(week_begin(day)) + "-"@ + ymd_label(week_begin(day) + 6) + ".json"@
}

/// Filename of the shard holding all pages of `day`'s week.
pub fn shard_filename(day: i64) -> (r: String)
    requires
        MIN_DAY <= day <= MAX_DAY,
        week_in_range(day as int),
    ensures
        r@ == spec_shard_filename(day as int),
{
    let (begin, end) = find_week(day);
    let mut s = format_day(begin);
    s.append("-");
    let end_label = format_day(end);
    s.append(end_label.as_str());
    s.append(".json");
    proof {
        assert(s@ =~= spec_shard_filename(day as int));
    }
    s
}

/// Shard determinism: the shard filename depends only on the
/// Sunday-to-Saturday week around the day; any two days of one week,
/// and so any two timestamps inside it, name the same shard file.
pub proof fn lemma_shard_filename_week_determined(d1: int, d2: int)
    requires
        week_begin(d1) <= d2 <= week_begin(d1) + 6,
    ensures
        spec_shard_filename(d2) == spec_shard_filename(d1),
{
    lemma_week_begin_of_member(d1, d2);
}

/// The days a ranged load steps through: `start`, then seven days at a time,
/// as long as the day is not past `end`.
pub open spec fn stepped_days(s: int, e: int) -> Seq<int>
    recommends
        s <= e,
{
    Seq::new(((e - s) / 7 + 1) as nat, |k: int| s + 7 * k)
}

/// The texts of a sequence of strings.
pub open spec fn name_views(names: Seq<String>) -> Seq<Seq<char>> {
    names.map_values(|n: String| n@)
}

/// The shard filename of each day in a sequence.
pub open spec fn filenames_of_days(days: Seq<int>) -> Seq<Seq<char>> {
    days.map_values(|d: int| spec_shard_filename(d))
}

/// The shard filenames a ranged load reads, in order: one for each stepped
/// day, and the week of `end` appended when stepping did not land on it.
pub open spec fn spec_range_filenames(s: int, e: int) -> Seq<Seq<char>>
    recommends
        s <= e,
{
    let base = filenames_of_days(stepped_days(s, e));
    let last_day = s + 7 * ((e - s) / 7);
    if spec_shard_filename(last_day) == spec_shard_filename(e) {
        base
    } else {
        base.push(spec_shard_filename(e))
    }
}

/// The shard files holding every page between two instants: stepping by
/// whole weeks from `start`'s day, plus `end`'s own week when the stepping
/// does not land on it. An empty plan when `start` is after `end`.
pub fn week_range_filenames(start: &Timestamp, end: &Timestamp) -> (r: Vec<String>)
    requires
        start.wf(),
        end.wf(),
        week_in_range(start.spec_day()),
        week_in_range(end.spec_day()),
    ensures
        start.spec_le(*end) ==> name_views(r@) == spec_range_filenames(
            start.spec_day(),
            end.spec_day(),
        ),
        !start.spec_le(*end) ==> r@.len() == 0,
{
    if !start.le(end) {
        return Vec::new();
    }
    let s = start.day();
    let e = end.day();
    proof {
        lemma_div_is_ordered(start.secs as int, end.secs as int, 86400);
        assert(s <= e);
    }
    let ghost sd = s as int;
    let ghost ed = e as int;
    let diff: u64 = (e - s) as u64;
    let steps: u64 = diff / 7;
    proof {
        assert(steps as int == (ed - sd) / 7);
        assert(stepped_days(sd, ed).len() == steps + 1);
    }
    let mut files: Vec<String> = Vec::new();
    let mut k: u64 = 0;
    proof {
        assert(name_views(files@) =~= filenames_of_days(stepped_days(sd, ed).take(0)));
    }
    while k <= steps
        invariant
            k <= steps + 1,
            sd == start.spec_day(),
            ed == end.spec_day(),
            start.wf(),
            end.wf(),
            week_in_range(sd),
            week_in_range(ed),
            MIN_DAY <= sd <= ed <= MAX_DAY,
            steps as int == (ed - sd) / 7,
            s == sd,
            e == ed,
            files@.len() == k,
            name_views(files@) == filenames_of_days(stepped_days(sd, ed).take(k as int)),
        decreases steps + 1 - k,
    {
        proof {
            lemma_fundamental_div_mod(ed - sd, 7);
            lemma_mod_bound(ed - sd, 7);
            assert(7 * (k as int) <= ed - sd);
        }
        let day: i64 = s + 7 * (k as i64);
        proof {
            assert(sd <= day as int <= ed);
            lemma_week_begin_mono(sd, day as int);
            lemma_week_begin_mono(day as int, ed);
            lemma_weekday_bounds(day as int);
            lemma_weekday_bounds(sd);
            lemma_weekday_bounds(ed);
            assert(week_in_range(day as int));
        }
        let name = shard_filename(day);
        let ghost prev = files@;
        files.push(name);
        proof {
            let taken = stepped_days(sd, ed).take(k as int + 1);
            assert(stepped_days(sd, ed)[k as int] == day as int);
            assert(files@.len() == k as int + 1);
            assert forall|i: int| 0 <= i < files@.len() implies name_views(files@)[i]
                == filenames_of_days(taken)[i] by {
                assert(name_views(files@)[i] == files@[i]@);
                assert(filenames_of_days(taken)[i] == spec_shard_filename(taken[i]));
                if i < k as int {
                    assert(files@[i] == prev[i]);
                    assert(name_views(prev)[i] == prev[i]@);
                    let prior = stepped_days(sd, ed).take(k as int);
                    assert(filenames_of_days(prior)[i] == spec_shard_filename(prior[i]));
                    assert(taken[i] == prior[i]);
                } else {
                    assert(files@[i]@ == spec_shard_filename(day as int));
                    assert(taken[i] == day as int);
                }
            }
            assert(name_views(files@) =~= filenames_of_days(taken));
        }
        k += 1;
    }
    let end_name = shard_filename(e);
    let last = &files[files.len() - 1];
    proof {
        assert(stepped_days(sd, ed).take(steps as int + 1) =~= stepped_days(sd, ed));
        assert(name_views(files@)[steps as int] == files@[steps as int]@);
        assert(filenames_of_days(stepped_days(sd, ed))[steps as int] == spec_shard_filename(
            stepped_days(sd, ed)[steps as int],
        ));
        assert(files@[steps as int]@ == spec_shard_filename(sd + 7 * ((ed - sd) / 7)));
    }
    if !last.eq(&end_name) {
        files.push(end_name);
        proof {
            assert(name_views(files@) =~= spec_range_filenames(sd, ed));
        }
    } else {
        proof {
            assert(name_views(files@) =~= spec_range_filenames(sd, ed));
        }
    }
    files
}

/// Range retrieval covers the boundary weeks: the plan holds the shard
/// filename of every day between the two ends, the week of `end` included,
/// also when seven-day stepping does not land on it.
pub proof fn lemma_range_covers(s: int, e: int, d: int)
    requires
        s <= d <= e,
    ensures
        spec_range_filenames(s, e).contains(spec_shard_filename(d)),
{
    let base = filenames_of_days(stepped_days(s, e));
    let cap = (e - s) / 7;
    let last_day = s + 7 * cap;
    lemma_weekday_bounds(s);
    lemma_weekday_bounds(d);
    lemma_weekday_bounds(e);
    lemma_week_begin_mono(s, d);
    lemma_week_begin_mono(d, e);
    lemma_fundamental_div_mod(e - s, 7);
    lemma_mod_bound(e - s, 7);
    let ws = week_begin(s);
    let wd = week_begin(d);
    let we = week_begin(e);
    if wd == we {
        assert(spec_shard_filename(d) == spec_shard_filename(e));
        if spec_shard_filename(last_day) == spec_shard_filename(e) {
            assert(stepped_days(s, e)[cap] == last_day);
            assert(base[cap] == spec_shard_filename(last_day));
            assert(spec_range_filenames(s, e)[cap] == spec_shard_filename(d));
        } else {
            assert(spec_range_filenames(s, e).last() == spec_shard_filename(d));
        }
    } else {
        lemma_fundamental_div_mod(s + 4, 7);
        lemma_fundamental_div_mod(d + 4, 7);
        lemma_mod_bound(s + 4, 7);
        lemma_mod_bound(d + 4, 7);
        let a = (s + 4) / 7;
        let b = (d + 4) / 7;
        assert(ws + 4 == 7 * a);
        assert(wd + 4 == 7 * b);
        let i = b - a;
        assert(wd - ws == 7 * i);
        assert(ws <= wd);
        assert(i >= 0) by {
            if i < 0 {
                assert(7 * i <= 7 * -1);
            }
        }
        let step = s + 7 * i;
        assert(step == s - ws + wd);
        assert(wd <= step <= wd + 6);
        assert(wd < we);
        assert(wd <= we - 7) by {
            lemma_fundamental_div_mod(e + 4, 7);
            lemma_mod_bound(e + 4, 7);
            let c = (e + 4) / 7;
            assert(we + 4 == 7 * c);
            assert(we - wd == 7 * (c - b));
            if c - b <= 0 {
                assert(7 * (c - b) <= 0);
            }
            assert(c - b >= 1);
            assert(7 * (c - b) >= 7) by {
                if c - b >= 1 {
                    assert(7 * (c - b) >= 7 * 1) by (nonlinear_arith)
                        requires
                            c - b >= 1,
                    ;
                }
            }
        }
        assert(step <= e - 1);
        assert(7 * i < e - s);
        assert(i <= cap) by {
            lemma_div_multiples_vanish(i, 7);
            lemma_div_is_ordered(7 * i, e - s, 7);
        }
        assert(0 <= i <= cap);
        assert(stepped_days(s, e)[i] == step);
        lemma_week_begin_of_member(d, step);
        assert(spec_shard_filename(step) == spec_shard_filename(d));
        assert(base[i] == spec_shard_filename(d));
        if spec_shard_filename(last_day) == spec_shard_filename(e) {
            assert(spec_range_filenames(s, e)[i] == spec_shard_filename(d));
        } else {
            assert(spec_range_filenames(s, e)[i] == spec_shard_filename(d));
        }
    }
}

/// Two decimal digits, zero-padded.
pub open spec fn pad2(v: int) -> Seq<char> {
    seq![digit_char(v / 10), digit_char(v % 10)]
}

/// Nine decimal digits, zero-padded: what `%f` shows for the sub-second
/// part.
pub open spec fn pad9(v: int) -> Seq<char> {
    seq![
        digit_char(v / 100000000 % 10),
        digit_char(v / 10000000 % 10),
        digit_char(v / 1000000 % 10),
        digit_char(v / 100000 % 10),
        digit_char(v / 10000 % 10),
        digit_char(v / 1000 % 10),
        digit_char(v / 100 % 10),
        digit_char(v / 10 % 10),
        digit_char(v % 10),
    ]
}

/// The name prefix a page's images carry: the page's creation instant as
/// `YYYY-MM-DD_HH-MM-SS-<nanoseconds>_`.
pub open spec fn spec_image_prefix(t: Timestamp) -> Seq<char> {
    let day = t.spec_day();
    let sod = t.secs - 86400 * day;
    ymd_label(day) + seq!['_'] + pad2(sod / 3600) + seq!['-'] + pad2((sod % 3600) / 60) + seq![
        '-',
    ] + pad2(sod % 60) + seq!['-'] + pad9(t.nanos as int) + seq!['_']
}

fn push_pad2(out: &mut Vec<char>, v: u64)
    requires
        v < 100,
    ensures
        final(out)@ == old(out)@ + pad2(v as int),
{
    let ghost before = out@;
    out.push(digit_to_char((v / 10) as u32));
    out.push(digit_to_char((v % 10) as u32));
    proof {
        assert(out@ =~= before + pad2(v as int));
    }
}

fn push_pad9(out: &mut Vec<char>, v: u32)
    requires
        v < 1_000_000_000,
    ensures
        final(out)@ == old(out)@ + pad9(v as int),
{
    let ghost before = out@;
    out.push(digit_to_char(v / 100000000 % 10));
    out.push(digit_to_char(v / 10000000 % 10));
    out.push(digit_to_char(v / 1000000 % 10));
    out.push(digit_to_char(v / 100000 % 10));
    out.push(digit_to_char(v / 10000 % 10));
    out.push(digit_to_char(v / 1000 % 10));
    out.push(digit_to_char(v / 100 % 10));
    out.push(digit_to_char(v / 10 % 10));
    out.push(digit_to_char(v % 10));
    proof {
        assert(out@ =~= before + pad9(v as int));
    }
}

/// Builds the image name prefix of a page created at the given instant:
/// its date, clock time and sub-second part, separators between them, so
/// that image names from different pages cannot collide.
pub fn generate_image_prefix(created_at: &Timestamp) -> (r: String)
    requires
        created_at.wf(),
    ensures
        r@ == spec_image_prefix(*created_at),
{
    let day = created_at.day();
    let sod_i = created_at.secs - day * 86400;
    proof {
        lemma_fundamental_div_mod(created_at.secs as int, 86400);
        lemma_mod_bound(created_at.secs as int, 86400);
        assert(sod_i as int == created_at.secs as int % 86400);
        assert(0 <= sod_i < 86400);
    }
    let sod: u64 = sod_i as u64;
    let date_label = format_day(day);
    let mut out = str_to_chars(date_label.as_str());
    out.push('_');
    proof {
        lemma_mod_bound(sod as int, 3600);
        lemma_mod_bound(sod as int, 60);
    }
    push_pad2(&mut out, sod / 3600);
    out.push('-');
    push_pad2(&mut out, (sod % 3600) / 60);
    out.push('-');
    push_pad2(&mut out, sod % 60);
    out.push('-');
    push_pad9(&mut out, created_at.nanos);
    out.push('_');
    proof {
        assert(out@ =~= spec_image_prefix(*created_at));
    }
    chars_to_string(&out)
}

} // verus!
