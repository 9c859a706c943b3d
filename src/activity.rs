//! Aggregation of a chronological run of entries into per-task durations,
//! split into work and slack.

use crate::entry::{entries_view, Entry};
use crate::text::{
    decimal, decimal_width2, push_chars, push_decimal, push_decimal_width2, push_str, string_of,
};
use crate::time::{minute_of_day, stamp_le, Stamp};
use vstd::prelude::*;
use vstd::string::*;

verus! {

/// A task whose description starts with `**` is slack, any other is work.
pub open spec fn is_slack(task: Seq<char>) -> bool {
    task.len() >= 2 && task[0] == '*' && task[1] == '*'
}

/// The entry at `i` closes a counted interval: it is not the first of the
/// run, and its predecessor lies on the same day.
pub open spec fn counts(s: Seq<(Stamp, Seq<char>)>, i: int) -> bool {
    0 < i < s.len() && s[i - 1].0.date == s[i].0.date
}

/// Minutes from the predecessor's stamp to that of the entry at `i`, where
/// that interval counts; zero elsewhere.
pub open spec fn interval(s: Seq<(Stamp, Seq<char>)>, i: int) -> int {
    if counts(s, i) {
        minute_of_day(s[i].0) - minute_of_day(s[i - 1].0)
    } else {
        0
    }
}

/// Work minutes over the first `n` entries.
pub open spec fn work_minutes(s: Seq<(Stamp, Seq<char>)>, n: int) -> int
    decreases n,
{
    if n <= 0 {
        0
    } else {
        work_minutes(s, n - 1) + if is_slack(s[n - 1].1) {
            0
        } else {
            interval(s, n - 1)
        }
    }
}

/// Slack minutes over the first `n` entries.
pub open spec fn slack_minutes(s: Seq<(Stamp, Seq<char>)>, n: int) -> int
    decreases n,
{
    if n <= 0 {
        0
    } else {
        slack_minutes(s, n - 1) + if is_slack(s[n - 1].1) {
            interval(s, n - 1)
        } else {
            0
        }
    }
}

/// The first position at or after `k` whose task is `name`, or -1.
pub open spec fn find_name(r: Seq<(Seq<char>, int)>, name: Seq<char>, k: int) -> int
    decreases r.len() - k,
{
    if k < 0 || k >= r.len() {
        -1
    } else if r[k].0 == name {
        k
    } else {
        find_name(r, name, k + 1)
    }
}

/// Per-task totals over the first `n` entries, in order of each task's first
/// counted interval.
pub open spec fn breakdown(s: Seq<(Stamp, Seq<char>)>, n: int) -> Seq<(Seq<char>, int)>
    decreases n,
{
    if n <= 0 {
        seq![]
    } else {
        let r = breakdown(s, n - 1);
        if !counts(s, n - 1) {
            r
        } else {
            let k = find_name(r, s[n - 1].1, 0);
            if k >= 0 {
                r.update(k, (r[k].0, r[k].1 + interval(s, n - 1)))
            } else {
                r.push((s[n - 1].1, interval(s, n - 1)))
            }
        }
    }
}

/// Entries in chronological order, each with a valid time of day.
pub open spec fn chronological(s: Seq<(Stamp, Seq<char>)>) -> bool {
    forall|i: int| 0 <= i < s.len() ==> #[trigger] s[i].0.hour < 24 && s[i].0.minute < 60
        && (i > 0 ==> stamp_le(s[i - 1].0, s[i].0))
}

/// One report line: hours and minutes, each right-aligned to width two.
pub open spec fn activity_text(name: Seq<char>, minutes: nat) -> Seq<char> {
    decimal_width2(minutes / 60) + " h "@ + decimal_width2(minutes % 60) + " min: "@ + name
}

/// The report lines of the first `n` activities, each ended by a newline.
pub open spec fn activities_text(r: Seq<(Seq<char>, int)>, n: int) -> Seq<char>
    decreases n,
{
    if n <= 0 {
        seq![]
    } else {
        activities_text(r, n - 1) + activity_text(r[n - 1].0, r[n - 1].1 as nat) + seq!['\n']
    }
}

/// A total as whole hours and remaining minutes.
pub open spec fn total_text(label: Seq<char>, minutes: nat) -> Seq<char> {
    label + decimal(minutes / 60) + " h "@ + decimal(minutes % 60) + " min\n"@
}

/// Time spent on one task.
#[derive(Debug)]
pub struct Activity {
    pub name: String,
    pub minutes: u64,
}

/// Per-task durations in order of first occurrence, with the totals of work
/// and slack.
#[derive(Debug)]
pub struct Activities {
    pub activities: Vec<Activity>,
    pub total_work: u64,
    pub total_slack: u64,
}

impl View for Activity {
    type V = (Seq<char>, int);

    open spec fn view(&self) -> (Seq<char>, int) {
        (self.name@, self.minutes as int)
    }
}

pub open spec fn activities_view(s: Seq<Activity>) -> Seq<(Seq<char>, int)> {
    s.map_values(|a: Activity| a@)
}

fn is_slack_task(task: &String) -> (r: bool)
    ensures
        r == is_slack(task@),
{
    let t = task.as_str();
    t.unicode_len() >= 2 && t.get_char(0) == '*' && t.get_char(1) == '*'
}

impl Activity {
    pub fn new(name: String, minutes: u64) -> (r: Activity)
        ensures
            r.name == name,
            r.minutes == minutes,
    {
        Activity { name, minutes }
    }

    /// The report line, e.g. ` 1 h  5 min: code`.
    pub fn to_text(&self) -> (r: String)
        ensures
            r@ == activity_text(self.name@, self.minutes as nat),
    {
        let mut out: Vec<char> = Vec::new();
        self.push_text(&mut out);
        string_of(out.as_slice())
    }

    fn push_text(&self, out: &mut Vec<char>)
        ensures
            final(out)@ == old(out)@ + activity_text(self.name@, self.minutes as nat),
    {
        push_decimal_width2(out, self.minutes / 60);
        push_str(out, " h ");
        push_decimal_width2(out, self.minutes % 60);
        push_str(out, " min: ");
        push_str(out, self.name.as_str());
        assert(final(out)@ =~= old(out)@ + activity_text(self.name@, self.minutes as nat));
    }
}

proof fn lemma_find_name_range(r: Seq<(Seq<char>, int)>, name: Seq<char>, k: int)
    ensures
        -1 <= find_name(r, name, k) < r.len(),
        find_name(r, name, k) >= 0 ==> r[find_name(r, name, k)].0 == name && k <= find_name(
            r,
            name,
            k,
        ),
    decreases r.len() - k,
{
    if 0 <= k < r.len() && r[k].0 != name {
        lemma_find_name_range(r, name, k + 1);
    }
}

proof fn lemma_totals_bound(s: Seq<(Stamp, Seq<char>)>, n: int)
    requires
        chronological(s),
        0 <= n <= s.len(),
    ensures
        0 <= work_minutes(s, n),
        0 <= slack_minutes(s, n),
        work_minutes(s, n) + slack_minutes(s, n) <= 1439 * n,
        forall|k: int|
            0 <= k < breakdown(s, n).len() ==> 0 <= #[trigger] breakdown(s, n)[k].1 <= 1439 * n,
    decreases n,
{
    if n > 0 {
        lemma_totals_bound(s, n - 1);
        lemma_interval_bound(s, n - 1);
        let r = breakdown(s, n - 1);
        lemma_find_name_range(r, s[n - 1].1, 0);
    }
}

proof fn lemma_interval_bound(s: Seq<(Stamp, Seq<char>)>, i: int)
    requires
        chronological(s),
        0 <= i < s.len(),
    ensures
        0 <= interval(s, i) <= 1439,
{
    if counts(s, i) {
        assert(s[i].0.hour < 24 && s[i].0.minute < 60);
        assert(s[i - 1].0.hour < 24 && s[i - 1].0.minute < 60);
        assert(stamp_le(s[i - 1].0, s[i].0));
    }
}

/// The first entry of a run, and every entry whose predecessor lies on
/// another day, contribute no minutes: no interval spans a day boundary.
pub proof fn lemma_no_interval_across_days(s: Seq<(Stamp, Seq<char>)>, i: int)
    requires
        0 <= i < s.len(),
        i == 0 || s[i - 1].0.date != s[i].0.date,
    ensures
        interval(s, i) == 0,
        work_minutes(s, i + 1) == work_minutes(s, i),
        slack_minutes(s, i + 1) == slack_minutes(s, i),
        breakdown(s, i + 1) == breakdown(s, i),
{
}

/// An empty run has no work, no slack and no activities.
pub proof fn lemma_empty_run(s: Seq<(Stamp, Seq<char>)>)
    requires
        s.len() == 0,
    ensures
        work_minutes(s, 0) == 0,
        slack_minutes(s, 0) == 0,
        breakdown(s, 0).len() == 0,
{
}

impl Activities {
    /// Aggregates a chronological run of entries. The first entry, and the
    /// first of every further day, only mark a start; every other entry adds
    /// the minutes since its predecessor to its task, and to the slack total
    /// if the task is slack, else to the work total.
    pub fn new_from_entries(entries: &[Entry]) -> (r: Activities)
        requires
            chronological(entries_view(entries@)),
            entries@.len() * 1440 <= u64::MAX,
        ensures
            activities_view(r.activities@) == breakdown(
                entries_view(entries@),
                entries@.len() as int,
            ),
            r.total_work == work_minutes(entries_view(entries@), entries@.len() as int),
            r.total_slack == slack_minutes(entries_view(entries@), entries@.len() as int),
    {
        let ghost s = entries_view(entries@);
        let mut activities: Vec<Activity> = Vec::new();
        let mut total_work: u64 = 0;
        let mut total_slack: u64 = 0;
        let mut i: usize = 0;
        while i < entries.len()
            invariant
                i <= entries@.len(),
                s == entries_view(entries@),
                chronological(s),
                entries@.len() * 1440 <= u64::MAX,
                total_work == work_minutes(s, i as int),
                total_slack == slack_minutes(s, i as int),
                activities_view(activities@) == breakdown(s, i as int),
            decreases entries@.len() - i,
        {
            proof {
                lemma_totals_bound(s, i as int);
                lemma_totals_bound(s, i as int + 1);
                lemma_interval_bound(s, i as int);
                assert(s[i as int] == entries@[i as int]@);
            }
            if i > 0 && entries[i - 1].stop.date == entries[i].stop.date {
                let e = &entries[i];
                let p = &entries[i - 1];
                proof {
                    assert(s[i as int - 1] == entries@[i as int - 1]@);
                }
                let d: u64 = ((e.stop.hour * 60 + e.stop.minute) - (p.stop.hour * 60
                    + p.stop.minute)) as u64;
                assert(d == interval(s, i as int));
                if is_slack_task(&e.task) {
                    total_slack = total_slack + d;
                } else {
                    total_work = total_work + d;
                }
                let ghost r = activities_view(activities@);
                let mut k: usize = 0;
                while k < activities.len() && !(activities[k].name == e.task)
                    invariant
                        k <= activities@.len(),
                        r == activities_view(activities@),
                        find_name(r, e.task@, 0) == find_name(r, e.task@, k as int),
                    decreases activities@.len() - k,
                {
                    k += 1;
                }
                proof {
                    lemma_find_name_range(r, e.task@, 0);
                }
                if k < activities.len() {
                    assert(find_name(r, e.task@, 0) == k);
                    assert(r[k as int].1 <= 1439 * i);
                    let m = activities[k].minutes + d;
                    activities[k].minutes = m;
                    assert(activities_view(activities@) =~= r.update(
                        k as int,
                        (r[k as int].0, r[k as int].1 + interval(s, i as int)),
                    ));
                } else {
                    activities.push(Activity { name: e.task.clone(), minutes: d });
                    assert(activities_view(activities@) =~= r.push((s[i as int].1, interval(s, i as int))));
                }
            }
            i += 1;
        }
        Activities { activities, total_work, total_slack }
    }

    /// The report: one line per activity, then the totals of work and slack.
    pub fn to_text(&self) -> (r: String)
        ensures
            r@ == activities_text(activities_view(self.activities@), self.activities@.len() as int)
                + "-------\n"@ + total_text("Total work done: "@, self.total_work as nat)
                + total_text("Total slacking: "@, self.total_slack as nat),
    {
        let ghost v = activities_view(self.activities@);
        let mut out: Vec<char> = Vec::new();
        let mut i: usize = 0;
        while i < self.activities.len()
            invariant
                i <= self.activities@.len(),
                v == activities_view(self.activities@),
                out@ == activities_text(v, i as int),
            decreases self.activities@.len() - i,
        {
            self.activities[i].push_text(&mut out);
            out.push('\n');
            i += 1;
        }
        push_str(&mut out, "-------\n");
        push_str(&mut out, "Total work done: ");
        push_decimal(&mut out, self.total_work / 60);
        push_str(&mut out, " h ");
        push_decimal(&mut out, self.total_work % 60);
        push_str(&mut out, " min\n");
        push_str(&mut out, "Total slacking: ");
        push_decimal(&mut out, self.total_slack / 60);
        push_str(&mut out, " h ");
        push_decimal(&mut out, self.total_slack % 60);
        push_str(&mut out, " min\n");
        let r = string_of(out.as_slice());
        assert(r@ =~= activities_text(v, self.activities@.len() as int) + "-------\n"@
            + total_text("Total work done: "@, self.total_work as nat) + total_text(
            "Total slacking: "@,
            self.total_slack as nat,
        ));
        r
    }
}

} // verus!
