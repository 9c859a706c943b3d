//! The log store: a chronological sequence of entries, its text form, and
//! queries over it.

use crate::entry::{entries_view, Entry};
use crate::line::{
    digit_value, find_sep, is_digit, lemma_find_sep_range, parse_stamp, trim, trim_bounds, trim_end,
    trim_start,
    lemma_line_round_trip, line_text, option_entry_view, parse_line, parse_line_chars, push_line, writable_entry,
    writable_stamp,
};
use crate::text::{chars_of, is_space, string_of};
use crate::time::{local_now, stamp_le, MAX_YEAR, MIN_YEAR, week_first_day, week_last_day, ymd_le, Date, Stamp};
use vstd::prelude::*;

verus! {

/// The lines of a text: the pieces between newlines, the last one possibly
/// empty.
pub open spec fn lines(s: Seq<char>) -> Seq<Seq<char>>
    decreases s.len(),
{
    if s.len() == 0 {
        seq![seq![]]
    } else {
        let p = lines(s.drop_last());
        if s.last() == '\n' {
            p.push(seq![])
        } else {
            p.update(p.len() - 1, p.last().push(s.last()))
        }
    }
}

/// The entries of the lines that hold one, in order.
pub open spec fn entries_of_lines(ls: Seq<Seq<char>>) -> Seq<(Stamp, Seq<char>)>
    decreases ls.len(),
{
    if ls.len() == 0 {
        seq![]
    } else {
        entries_of_lines(ls.drop_last()) + line_entries(ls.last())
    }
}

/// The entry of one line, if it holds one, as a sequence of zero or one.
pub open spec fn line_entries(l: Seq<char>) -> Seq<(Stamp, Seq<char>)> {
    match parse_line(l) {
        Some(e) => seq![e],
        None => seq![],
    }
}

/// The entries that a text holds, in order, whether or not chronological.
pub open spec fn parse_text(s: Seq<char>) -> Seq<(Stamp, Seq<char>)> {
    entries_of_lines(lines(s))
}

/// No entry is earlier than the one before it.
pub open spec fn in_order(s: Seq<(Stamp, Seq<char>)>) -> bool {
    forall|i: int| 0 < i < s.len() ==> stamp_le(#[trigger] s[i - 1].0, s[i].0)
}

/// The text form of a sequence: one line per entry, and an empty line
/// wherever the day changes between two entries.
pub open spec fn log_text(s: Seq<(Stamp, Seq<char>)>) -> Seq<char>
    decreases s.len(),
{
    if s.len() == 0 {
        seq![]
    } else {
        let p = s.drop_last();
        log_text(p) + (if p.len() > 0 && p.last().0.date != s.last().0.date {
            seq!['\n']
        } else {
            seq![]
        }) + line_text(s.last()) + seq!['\n']
    }
}

/// The invariant of a store: chronological, and every stamp writable.
pub open spec fn log_wf(s: Seq<(Stamp, Seq<char>)>) -> bool {
    &&& in_order(s)
    &&& forall|i: int| 0 <= i < s.len() ==> writable_stamp(#[trigger] s[i].0)
}

/// The non-blank lines, trimmed, that hold no entry.
pub open spec fn skipped(ls: Seq<Seq<char>>) -> Seq<Seq<char>>
    decreases ls.len(),
{
    if ls.len() == 0 {
        seq![]
    } else {
        skipped(ls.drop_last()) + if trim(ls.last()).len() > 0 && parse_line(ls.last()) is None {
            seq![trim(ls.last())]
        } else {
            seq![]
        }
    }
}

/// Why a log cannot be built or extended.
#[derive(Clone, Copy, Debug, PartialEq, Eq, Structural)]
pub enum LogError {
    /// An entry is earlier than the one before it.
    OutOfOrder,
    /// A stamp whose year the text form cannot write.
    UnwritableTime,
}

proof fn lemma_lines_len(s: Seq<char>)
    ensures
        lines(s).len() >= 1,
    decreases s.len(),
{
    if s.len() > 0 {
        lemma_lines_len(s.drop_last());
    }
}

proof fn lemma_lines_step(s: Seq<char>, i: int)
    requires
        0 <= i < s.len(),
    ensures
        s[i] == '\n' ==> lines(s.subrange(0, i + 1)) == lines(s.subrange(0, i)).push(seq![]),
        s[i] != '\n' ==> lines(s.subrange(0, i + 1)) == lines(s.subrange(0, i)).update(
            lines(s.subrange(0, i)).len() - 1,
            lines(s.subrange(0, i)).last().push(s[i]),
        ),
{
    assert(s.subrange(0, i + 1).drop_last() =~= s.subrange(0, i));
}

/// Splitting at a newline splits the lines.
proof fn lemma_lines_concat(x: Seq<char>, y: Seq<char>)
    ensures
        lines(x + seq!['\n'] + y) == lines(x) + lines(y),
    decreases y.len(),
{
    let z = x + seq!['\n'] + y;
    if y.len() == 0 {
        assert(z.drop_last() =~= x);
        assert(lines(z) =~= lines(x) + lines(y));
    } else {
        let y1 = y.drop_last();
        lemma_lines_concat(x, y1);
        lemma_lines_len(y1);
        lemma_lines_len(x);
        assert(z.drop_last() =~= x + seq!['\n'] + y1);
        assert(lines(z) =~= lines(x) + lines(y));
    }
}

proof fn lemma_lines_single(s: Seq<char>)
    requires
        forall|i: int| 0 <= i < s.len() ==> s[i] != '\n',
    ensures
        lines(s) == seq![s],
    decreases s.len(),
{
    if s.len() > 0 {
        assert(s[s.len() - 1] != '\n');
        lemma_lines_single(s.drop_last());
        assert(s.drop_last().push(s.last()) =~= s);
        assert(seq![s.drop_last()].update(0, s.drop_last().push(s.last())) =~= seq![s]);
    } else {
        assert(s =~= Seq::<char>::empty());
    }
}

proof fn lemma_lines_no_newline(s: Seq<char>)
    ensures
        forall|k: int, j: int|
            0 <= k < lines(s).len() && 0 <= j < lines(s)[k].len() ==> #[trigger] lines(s)[k][j]
                != '\n',
    decreases s.len(),
{
    if s.len() > 0 {
        lemma_lines_no_newline(s.drop_last());
        lemma_lines_len(s.drop_last());
        let p = lines(s.drop_last());
        if s.last() != '\n' {
            assert forall|k: int, j: int|
                0 <= k < lines(s).len() && 0 <= j < lines(s)[k].len() implies #[trigger] lines(
                s,
            )[k][j] != '\n' by {
                if k == p.len() - 1 && j == p.last().len() {
                } else if k == p.len() - 1 {
                    assert(lines(s)[k][j] == p[k][j]);
                } else {
                    assert(lines(s)[k] == p[k]);
                }
            }
        } else {
            assert forall|k: int, j: int|
                0 <= k < lines(s).len() && 0 <= j < lines(s)[k].len() implies #[trigger] lines(
                s,
            )[k][j] != '\n' by {
                if k < p.len() {
                    assert(lines(s)[k] == p[k]);
                }
            }
        }
    }
}

proof fn lemma_entries_of_lines_concat(a: Seq<Seq<char>>, b: Seq<Seq<char>>)
    ensures
        entries_of_lines(a + b) == entries_of_lines(a) + entries_of_lines(b),
    decreases b.len(),
{
    if b.len() == 0 {
        assert(a + b =~= a);
        assert(entries_of_lines(a) + entries_of_lines(b) =~= entries_of_lines(a));
    } else {
        lemma_entries_of_lines_concat(a, b.drop_last());
        assert((a + b).drop_last() =~= a + b.drop_last());
        assert(entries_of_lines(a + b) =~= entries_of_lines(a) + entries_of_lines(b));
    }
}

proof fn lemma_entries_of_one_line(l: Seq<char>)
    ensures
        entries_of_lines(seq![l]) == line_entries(l),
{
    reveal_with_fuel(entries_of_lines, 2);
    assert(seq![l].drop_last() =~= Seq::<Seq<char>>::empty());
    assert(seq![l].last() == l);
    assert(entries_of_lines(seq![l]) =~= line_entries(l));
}

proof fn lemma_text_of_entry(e: (Stamp, Seq<char>))
    requires
        writable_entry(e),
    ensures
        entries_of_lines(lines(line_text(e) + seq!['\n'])) == seq![e],
        entries_of_lines(lines(seq!['\n'] + line_text(e) + seq!['\n'])) == seq![e],
{
    let l = line_text(e);
    lemma_line_round_trip(e);
    lemma_lines_single(l);
    lemma_lines_concat(l, seq![]);
    assert(l + seq!['\n'] + Seq::<char>::empty() =~= l + seq!['\n']);
    assert(lines(Seq::<char>::empty()) == seq![Seq::<char>::empty()]);
    lemma_entries_of_lines_concat(seq![l], seq![Seq::<char>::empty()]);
    lemma_entries_of_one_line(l);
    lemma_entries_of_one_line(Seq::<char>::empty());
    assert(parse_line(Seq::<char>::empty()) is None);
    lemma_lines_concat(Seq::<char>::empty(), l + seq!['\n']);
    assert(Seq::<char>::empty() + seq!['\n'] + (l + seq!['\n']) =~= seq!['\n'] + l + seq!['\n']);
    lemma_entries_of_lines_concat(seq![Seq::<char>::empty()], lines(l + seq!['\n']));
}

/// Writing a chronological sequence of writable entries and reading the
/// text back gives the same sequence.
pub proof fn lemma_log_text_round_trip(s: Seq<(Stamp, Seq<char>)>)
    requires
        forall|i: int| 0 <= i < s.len() ==> writable_entry(#[trigger] s[i]),
    ensures
        parse_text(log_text(s)) == s,
    decreases s.len(),
{
    if s.len() == 0 {
        lemma_entries_of_one_line(Seq::<char>::empty());
        assert(parse_line(Seq::<char>::empty()) is None);
        assert(log_text(s) =~= Seq::<char>::empty());
        assert(lines(Seq::<char>::empty()) == seq![Seq::<char>::empty()]);
        assert(s =~= Seq::<(Stamp, Seq<char>)>::empty());
    } else {
        let p = s.drop_last();
        let e = s.last();
        assert(writable_entry(s[s.len() - 1]));
        lemma_text_of_entry(e);
        let mid = if p.len() > 0 && p.last().0.date != e.0.date {
            seq!['\n'] + line_text(e) + seq!['\n']
        } else {
            line_text(e) + seq!['\n']
        };
        assert(log_text(s) =~= log_text(p) + mid);
        if p.len() == 0 {
            assert(log_text(s) =~= mid);
            assert(s =~= seq![e]);
        } else {
            assert forall|i: int| 0 <= i < p.len() implies writable_entry(#[trigger] p[i]) by {
                assert(p[i] == s[i]);
            }
            lemma_log_text_round_trip(p);
            let q = log_text(p);
            assert(q.len() > 0 && q.last() == '\n');
            let q1 = q.drop_last();
            assert(q =~= q1 + seq!['\n'] + Seq::<char>::empty());
            lemma_lines_concat(q1, Seq::<char>::empty());
            assert(lines(Seq::<char>::empty()) == seq![Seq::<char>::empty()]);
            lemma_entries_of_lines_concat(lines(q1), seq![Seq::<char>::empty()]);
            lemma_entries_of_one_line(Seq::<char>::empty());
            assert(parse_line(Seq::<char>::empty()) is None);
            assert(entries_of_lines(lines(q1)) =~= p);
            assert(log_text(s) =~= q1 + seq!['\n'] + mid);
            lemma_lines_concat(q1, mid);
            lemma_entries_of_lines_concat(lines(q1), lines(mid));
            assert(entries_of_lines(lines(mid)) == seq![e]);
            assert(parse_text(log_text(s)) == entries_of_lines(lines(q1) + lines(mid)));
            assert(parse_text(log_text(s)) == p + seq![e]);
            assert(s =~= p + seq![e]);
        }
    }
}

/// The entries read from any line are writable.
proof fn lemma_parsed_writable(l: Seq<char>)
    requires
        forall|j: int| 0 <= j < l.len() ==> l[j] != '\n',
    ensures
        parse_line(l) matches Some(e) ==> writable_entry(e),
{
    let lo = lemma_trim_start(l);
    let u = trim_start(l);
    let hi = lemma_trim_end(u);
    let t = trim(l);
    assert(t =~= l.subrange(lo, l.len() as int).subrange(0, hi));
    let k = find_sep(t, 0);
    lemma_find_sep_range(t, 0);
    if k >= 0 {
        let ts = t.subrange(0, k);
        if let Some(st) = parse_stamp(ts) {
            let task = t.subrange(k + 2, t.len() as int);
            assert(t.last() == u[hi - 1]);
            assert(k + 2 < t.len());
            assert(task.last() == t.last());
            assert forall|i: int| 0 <= i < task.len() implies task[i] != '\n' by {
                assert(task[i] == l[lo + k + 2 + i]);
            }
            lemma_digit_range(ts[0]);
            lemma_digit_range(ts[1]);
            lemma_digit_range(ts[2]);
            lemma_digit_range(ts[3]);
        }
    }
}

proof fn lemma_digit_range(c: char)
    requires
        is_digit(c),
    ensures
        0 <= digit_value(c) <= 9,
{
}

proof fn lemma_trim_start(s: Seq<char>) -> (lo: int)
    ensures
        0 <= lo <= s.len(),
        trim_start(s) == s.subrange(lo, s.len() as int),
    decreases s.len(),
{
    if s.len() > 0 && is_space(s[0]) {
        let lo1 = lemma_trim_start(s.drop_first());
        assert(s.drop_first().subrange(lo1, s.len() - 1) =~= s.subrange(lo1 + 1, s.len() as int));
        lo1 + 1
    } else {
        assert(s.subrange(0, s.len() as int) =~= s);
        0
    }
}

proof fn lemma_trim_end(s: Seq<char>) -> (hi: int)
    ensures
        0 <= hi <= s.len(),
        trim_end(s) == s.subrange(0, hi),
        hi > 0 ==> !is_space(s[hi - 1]),
    decreases s.len(),
{
    if s.len() > 0 && is_space(s.last()) {
        let hi1 = lemma_trim_end(s.drop_last());
        assert(s.drop_last().subrange(0, hi1) =~= s.subrange(0, hi1));
        hi1
    } else {
        assert(s.subrange(0, s.len() as int) =~= s);
        s.len() as int
    }
}

proof fn lemma_entries_of_lines_writable(ls: Seq<Seq<char>>)
    requires
        forall|k: int, j: int|
            0 <= k < ls.len() && 0 <= j < ls[k].len() ==> #[trigger] ls[k][j] != '\n',
    ensures
        forall|i: int|
            0 <= i < entries_of_lines(ls).len() ==> writable_entry(
                #[trigger] entries_of_lines(ls)[i],
            ),
    decreases ls.len(),
{
    if ls.len() > 0 {
        lemma_entries_of_lines_writable(ls.drop_last());
        let l = ls.last();
        assert forall|j: int| 0 <= j < l.len() implies l[j] != '\n' by {
            assert(ls[ls.len() - 1][j] != '\n');
        }
        lemma_parsed_writable(l);
        let p = entries_of_lines(ls.drop_last());
        assert forall|i: int|
            0 <= i < entries_of_lines(ls).len() implies writable_entry(
            #[trigger] entries_of_lines(ls)[i],
        ) by {
            if i < p.len() {
                assert(entries_of_lines(ls)[i] == p[i]);
            }
        }
    }
}

/// Whatever a text holds can be written and read back.
pub proof fn lemma_parsed_text_writable(s: Seq<char>)
    ensures
        forall|i: int|
            0 <= i < parse_text(s).len() ==> writable_entry(#[trigger] parse_text(s)[i]),
{
    lemma_lines_no_newline(s);
    lemma_entries_of_lines_writable(lines(s));
}

/// Round trip: serialising what a chronological text holds and parsing the
/// result gives the same entries.
pub proof fn lemma_round_trip(text: Seq<char>)
    requires
        in_order(parse_text(text)),
    ensures
        parse_text(log_text(parse_text(text))) == parse_text(text),
{
    lemma_parsed_text_writable(text);
    lemma_log_text_round_trip(parse_text(text));
}

/// `r` is the contiguous part of `s` whose stamps satisfy `keep`, and no
/// entry outside it does.
pub open spec fn selects(
    s: Seq<(Stamp, Seq<char>)>,
    r: Seq<(Stamp, Seq<char>)>,
    keep: spec_fn(Stamp) -> bool,
) -> bool {
    exists|lo: int, hi: int|
        0 <= lo <= hi <= s.len() && r == #[trigger] s.subrange(lo, hi) && forall|i: int|
            0 <= i < s.len() ==> ((lo <= i < hi) <==> keep(#[trigger] s[i].0))
}

/// Whether day `d` lies in the Monday-to-Sunday week that holds `day`.
pub open spec fn in_week_of(d: Date, day: Date) -> bool {
    ymd_le(week_first_day(day.year as int, day.month as int, day.day as int), d.ymd()) && ymd_le(
        d.ymd(),
        week_last_day(day.year as int, day.month as int, day.day as int),
    )
}

/// The distinct tasks of a sequence, each at its first occurrence.
pub open spec fn history(s: Seq<(Stamp, Seq<char>)>) -> Seq<Seq<char>>
    decreases s.len(),
{
    if s.len() == 0 {
        seq![]
    } else {
        let h = history(s.drop_last());
        if h.contains(s.last().1) {
            h
        } else {
            h.push(s.last().1)
        }
    }
}

pub open spec fn strings_view(v: Seq<String>) -> Seq<Seq<char>> {
    v.map_values(|t: String| t@)
}

/// What adding `task` at `now` does to a store: a stamp outside the years
/// that the text form can write, or one earlier than the last entry, is
/// refused and leaves the store as it was; else the entry is appended.
pub open spec fn added(
    before: Seq<(Stamp, Seq<char>)>,
    now: Stamp,
    task: Seq<char>,
    after: Seq<(Stamp, Seq<char>)>,
    r: Result<(), LogError>,
) -> bool {
    if !(0 <= now.date.year <= 9999) {
        r == Err::<(), LogError>(LogError::UnwritableTime) && after == before
    } else if before.len() > 0 && !stamp_le(before.last().0, now) {
        r == Err::<(), LogError>(LogError::OutOfOrder) && after == before
    } else {
        r == Ok::<(), LogError>(()) && after == before.push((now, task))
    }
}

proof fn lemma_in_order_global(s: Seq<(Stamp, Seq<char>)>, i: int, j: int)
    requires
        in_order(s),
        0 <= i <= j < s.len(),
    ensures
        stamp_le(s[i].0, s[j].0),
    decreases j - i,
{
    if i < j {
        lemma_in_order_global(s, i, j - 1);
        assert(stamp_le(s[j - 1].0, s[j].0));
    }
}

/// Whether `a` is strictly earlier than `b`.
pub open spec fn stamp_lt(a: Stamp, b: Stamp) -> bool {
    !stamp_le(b, a)
}

/// A text with an entry strictly earlier than the one before it is not in
/// order, so `Timelog::parse` refuses it; a text whose consecutive entries
/// have equal or increasing stamps is in order, and is accepted.
pub proof fn lemma_order_enforced(text: Seq<char>)
    ensures
        (exists|i: int|
            0 < i < parse_text(text).len() && stamp_lt(
                #[trigger] parse_text(text)[i].0,
                parse_text(text)[i - 1].0,
            )) ==> !in_order(parse_text(text)),
        (forall|i: int|
            0 < i < parse_text(text).len() ==> parse_text(text)[i - 1].0 == #[trigger] parse_text(
                text,
            )[i].0 || stamp_lt(parse_text(text)[i - 1].0, parse_text(text)[i].0)) ==> in_order(
            parse_text(text),
        ),
{
    let s = parse_text(text);
    if exists|i: int| 0 < i < s.len() && stamp_lt(#[trigger] s[i].0, s[i - 1].0) {
        let i = choose|i: int| 0 < i < s.len() && stamp_lt(#[trigger] s[i].0, s[i - 1].0);
        assert(!stamp_le(s[i - 1].0, s[i].0));
    }
    if forall|i: int| 0 < i < s.len() ==> s[i - 1].0 == #[trigger] s[i].0 || stamp_lt(s[i - 1].0, s[i].0) {
        assert forall|i: int| 0 < i < s.len() implies stamp_le(#[trigger] s[i - 1].0, s[i].0) by {
            assert(s[i - 1].0 == s[i].0 || stamp_lt(s[i - 1].0, s[i].0));
        }
    }
}

/// A day's selection holds exactly the entries of that day, in order; where
/// no entry lies on that day (an empty store among them), it is empty.
pub proof fn lemma_day_selection(s: Seq<(Stamp, Seq<char>)>, r: Seq<(Stamp, Seq<char>)>, day: Date)
    requires
        selects(s, r, |st: Stamp| st.date == day),
    ensures
        forall|k: int| 0 <= k < r.len() ==> (#[trigger] r[k]).0.date == day,
        r.len() == 0 <==> forall|i: int| 0 <= i < s.len() ==> (#[trigger] s[i]).0.date != day,
{
    let (lo, hi) = choose|lo: int, hi: int|
        0 <= lo <= hi <= s.len() && r == #[trigger] s.subrange(lo, hi) && forall|i: int|
            0 <= i < s.len() ==> ((lo <= i < hi) <==> (#[trigger] s[i].0).date == day);
    assert forall|k: int| 0 <= k < r.len() implies (#[trigger] r[k]).0.date == day by {
        assert(r[k] == s[lo + k]);
        assert(lo <= lo + k < hi);
    }
    if r.len() > 0 {
        assert(r[0] == s[lo]);
        assert(s[lo].0.date == day);
    } else {
        assert forall|i: int| 0 <= i < s.len() implies (#[trigger] s[i]).0.date != day by {
            assert(!(lo <= i < hi));
        }
    }
}

/// Empty text holds no entries, and no entries give empty text.
pub proof fn lemma_empty_log()
    ensures
        parse_text(Seq::<char>::empty()) == Seq::<(Stamp, Seq<char>)>::empty(),
        log_text(Seq::<(Stamp, Seq<char>)>::empty()) == Seq::<char>::empty(),
{
    lemma_entries_of_one_line(Seq::<char>::empty());
    assert(parse_line(Seq::<char>::empty()) is None);
    assert(lines(Seq::<char>::empty()) == seq![Seq::<char>::empty()]);
    assert(line_entries(Seq::<char>::empty()) =~= Seq::<(Stamp, Seq<char>)>::empty());
}

/// A time log: its entries in chronological order, and the file that it is
/// saved to, if any.
pub struct Timelog {
    entries: Vec<Entry>,
    pub filename: Option<String>,
}

impl View for Timelog {
    type V = Seq<(Stamp, Seq<char>)>;

    closed spec fn view(&self) -> Seq<(Stamp, Seq<char>)> {
        entries_view(self.entries@)
    }
}

/// Parses one line and appends its entry, unless that entry would be
/// earlier than the last one.
fn push_parsed(entries: &mut Vec<Entry>, line: &[char]) -> (ok: bool)
    requires
        in_order(entries_view(old(entries)@)),
    ensures
        ok <==> in_order(entries_view(old(entries)@) + line_entries(line@)),
        ok ==> entries_view(final(entries)@) == entries_view(old(entries)@) + line_entries(
            line@,
        ),
{
    let ghost before = entries_view(entries@);
    match parse_line_chars(line) {
        Some(e) => {
            let n = entries.len();
            if n > 0 && !entries[n - 1].stop.le(&e.stop) {
                assert(before[n - 1] == entries@[n - 1]@);
                let ghost after = before + line_entries(line@);
                assert(after[n as int] == e@);
                assert(after[n - 1] == before[n - 1]);
                assert(!stamp_le(after[n as int - 1].0, after[n as int].0));
                return false;
            }
            entries.push(e);
            assert(entries_view(entries@) =~= before + line_entries(line@));
            assert forall|i: int|
                0 < i < entries_view(entries@).len() implies stamp_le(
                #[trigger] entries_view(entries@)[i - 1].0,
                entries_view(entries@)[i].0,
            ) by {
                if i < n {
                    assert(entries_view(entries@)[i] == before[i]);
                    assert(entries_view(entries@)[i - 1] == before[i - 1]);
                } else {
                    assert(before[n - 1] == entries@[n - 1]@);
                }
            }
            true
        },
        None => {
            assert(before + line_entries(line@) =~= before);
            true
        },
    }
}

proof fn lemma_not_in_order_prefix(a: Seq<(Stamp, Seq<char>)>, b: Seq<(Stamp, Seq<char>)>)
    requires
        !in_order(a),
    ensures
        !in_order(a + b),
{
    let i = choose|i: int| 0 < i < a.len() && !stamp_le(#[trigger] a[i - 1].0, a[i].0);
    assert((a + b)[i - 1] == a[i - 1]);
    assert((a + b)[i] == a[i]);
}

/// Appends the trimmed line if it is not blank and holds no entry.
fn push_skipped(r: &mut Vec<String>, line: &[char])
    ensures
        strings_view(final(r)@) == strings_view(old(r)@) + if trim(line@).len() > 0 && parse_line(
            line@,
        ) is None {
            seq![trim(line@)]
        } else {
            Seq::<Seq<char>>::empty()
        },
{
    let (lo, hi) = trim_bounds(line);
    if lo < hi && parse_line_chars(line).is_none() {
        r.push(string_of(&line[lo..hi]));
        assert(strings_view(r@) =~= strings_view(old(r)@) + seq![trim(line@)]);
    } else {
        assert(strings_view(r@) =~= strings_view(old(r)@) + Seq::<Seq<char>>::empty());
    }
}

impl Timelog {
    /// The file that the store is saved to, if any.
    pub closed spec fn file_name(&self) -> Option<String> {
        self.filename
    }

    /// The store's invariant: chronological, and every stamp writable.
    pub open spec fn wf(&self) -> bool {
        log_wf(self@)
    }

    /// Reads one line of the log: `None` for a blank line, for a line without
    /// `": "`, and for a line whose part before it is not a valid
    /// `YYYY-MM-DD HH:MM`.
    pub fn parse_line(line: &str) -> (r: Option<Entry>)
        ensures
            option_entry_view(r) == parse_line(line@),
    {
        let c = chars_of(line);
        parse_line_chars(c.as_slice())
    }

    /// Reads the entries of a text, line by line, skipping lines that hold
    /// none. A text in which an entry is earlier than the one before it is a
    /// corrupt log and is refused.
    pub fn parse(raw: &str) -> (r: Result<Vec<Entry>, LogError>)
        ensures
            r is Ok <==> in_order(parse_text(raw@)),
            r matches Ok(v) ==> entries_view(v@) == parse_text(raw@),
            r matches Err(e) ==> e == LogError::OutOfOrder,
    {
        let c = chars_of(raw);
        let n = c.len();
        let mut entries: Vec<Entry> = Vec::new();
        let ghost mut done: Seq<Seq<char>> = seq![];
        let mut start: usize = 0;
        let mut i: usize = 0;
        assert(c@.subrange(0, 0) =~= Seq::<char>::empty());
        assert(entries_view(entries@) =~= entries_of_lines(done));
        while i < n
            invariant
                n == c@.len(),
                c@ == raw@,
                start <= i <= n,
                lines(c@.subrange(0, i as int)) == done.push(c@.subrange(start as int, i as int)),
                entries_view(entries@) == entries_of_lines(done),
                in_order(entries_of_lines(done)),
            decreases n - i,
        {
            proof {
                lemma_lines_step(c@, i as int);
            }
            if c[i] == '\n' {
                let line = &c.as_slice()[start..i];
                proof {
                    lemma_entries_of_lines_concat(done, seq![line@]);
                    lemma_entries_of_one_line(line@);
                    assert(done.push(line@) =~= done + seq![line@]);
                }
                if !push_parsed(&mut entries, line) {
                    proof {
                        let x = c@.subrange(0, i as int);
                        let y = c@.subrange(i + 1, n as int);
                        assert(c@ =~= x + seq!['\n'] + y);
                        lemma_lines_concat(x, y);
                        lemma_entries_of_lines_concat(done.push(line@), lines(y));
                        lemma_not_in_order_prefix(entries_of_lines(done.push(line@)), entries_of_lines(lines(y)));
                    }
                    return Err(LogError::OutOfOrder);
                }
                proof {
                    done = done.push(line@);
                    assert(c@.subrange(i + 1, i + 1) =~= Seq::<char>::empty());
                }
                start = i + 1;
            } else {
                assert(c@.subrange(start as int, i + 1) =~= c@.subrange(start as int, i as int).push(
                    c@[i as int],
                ));
            }
            i += 1;
        }
        let line = &c.as_slice()[start..n];
        proof {
            assert(c@.subrange(0, n as int) =~= c@);
            lemma_entries_of_lines_concat(done, seq![line@]);
            lemma_entries_of_one_line(line@);
            assert(done.push(line@) =~= done + seq![line@]);
        }
        if !push_parsed(&mut entries, line) {
            return Err(LogError::OutOfOrder);
        }
        Ok(entries)
    }

    /// A store of the entries of a text, with no file of its own.
    pub fn new_from_string(contents: &str) -> (r: Result<Timelog, LogError>)
        ensures
            r is Ok <==> in_order(parse_text(contents@)),
            r matches Ok(t) ==> t@ == parse_text(contents@) && t.wf() && t.file_name() is None,
            r matches Err(e) ==> e == LogError::OutOfOrder,
    {
        match Timelog::parse(contents) {
            Ok(entries) => {
                proof {
                    lemma_parsed_text_writable(contents@);
                }
                Ok(Timelog { entries, filename: None })
            },
            Err(e) => Err(e),
        }
    }

    /// The text form: one line per entry, and an empty line wherever the day
    /// changes.
    pub fn format_store(&self) -> (r: String)
        requires
            self.wf(),
        ensures
            r@ == log_text(self@),
    {
        let ghost s = self@;
        let mut out: Vec<char> = Vec::new();
        let mut i: usize = 0;
        assert(s.subrange(0, 0) =~= Seq::<(Stamp, Seq<char>)>::empty());
        while i < self.entries.len()
            invariant
                i <= self.entries@.len(),
                s == self@,
                log_wf(s),
                out@ == log_text(s.subrange(0, i as int)),
            decreases self.entries@.len() - i,
        {
            let e = &self.entries[i];
            proof {
                assert(s[i as int] == e@);
                assert(writable_stamp(s[i as int].0));
                assert(s.subrange(0, i + 1).drop_last() =~= s.subrange(0, i as int));
                if i > 0 {
                    assert(s[i - 1] == self.entries@[i - 1]@);
                }
            }
            if i > 0 && self.entries[i - 1].stop.date != e.stop.date {
                out.push('\n');
            }
            push_line(&mut out, e);
            out.push('\n');
            i += 1;
        }
        assert(s.subrange(0, i as int) =~= s);
        string_of(out.as_slice())
    }

    /// Every entry, in order.
    pub fn get_all(&self) -> (r: &[Entry])
        ensures
            entries_view(r@) == self@,
    {
        self.entries.as_slice()
    }

    /// The entries from `begin` to `end`, both included.
    pub fn get_time_range(&self, begin: Stamp, end: Stamp) -> (r: &[Entry])
        requires
            self.wf(),
        ensures
            selects(self@, entries_view(r@), |st: Stamp| stamp_le(begin, st) && stamp_le(st, end)),
    {
        let ghost s = self@;
        let n = self.entries.len();
        let mut first: usize = 0;
        while first < n && !begin.le(&self.entries[first].stop)
            invariant
                n == self.entries@.len(),
                s == self@,
                first <= n,
                forall|i: int| 0 <= i < first ==> !stamp_le(begin, #[trigger] s[i].0),
            decreases n - first,
        {
            assert(s[first as int] == self.entries@[first as int]@);
            first += 1;
        }
        let mut last: usize = first;
        while last < n && self.entries[last].stop.le(&end)
            invariant
                n == self.entries@.len(),
                s == self@,
                first <= last <= n,
                forall|i: int| first <= i < last ==> stamp_le(#[trigger] s[i].0, end),
            decreases n - last,
        {
            assert(s[last as int] == self.entries@[last as int]@);
            last += 1;
        }
        let r = &self.entries.as_slice()[first..last];
        proof {
            if first < n {
                assert(s[first as int] == self.entries@[first as int]@);
            }
            if last < n {
                assert(s[last as int] == self.entries@[last as int]@);
            }
            assert forall|i: int| 0 <= i < s.len() implies ((first <= i < last) <==> (stamp_le(
                begin,
                #[trigger] s[i].0,
            ) && stamp_le(s[i].0, end))) by {
                if first <= i {
                    lemma_in_order_global(s, first as int, i);
                }
                if last <= i {
                    lemma_in_order_global(s, last as int, i);
                }
            }
            assert(entries_view(r@) =~= s.subrange(first as int, last as int));
        }
        r
    }

    /// The entries of one day.
    pub fn get_day(&self, day: &Date) -> (r: &[Entry])
        requires
            self.wf(),
        ensures
            selects(self@, entries_view(r@), |st: Stamp| st.date == *day),
    {
        let begin = Stamp { date: *day, hour: 0, minute: 0 };
        let end = Stamp { date: *day, hour: 23, minute: 59 };
        let r = self.get_time_range(begin, end);
        proof {
            let s = self@;
            let (lo, hi) = choose|lo: int, hi: int|
                0 <= lo <= hi <= s.len() && entries_view(r@) == #[trigger] s.subrange(lo, hi)
                    && forall|i: int|
                    0 <= i < s.len() ==> ((lo <= i < hi) <==> (stamp_le(begin, #[trigger] s[i].0)
                        && stamp_le(s[i].0, end)));
            assert forall|i: int| 0 <= i < s.len() implies ((lo <= i < hi) <==> (#[trigger] s[
                i
            ].0.date == *day)) by {
                assert(writable_stamp(s[i].0));
                assert((stamp_le(begin, s[i].0) && stamp_le(s[i].0, end)) == (lo <= i < hi));
            }
            assert(entries_view(r@) == s.subrange(lo, hi));
        }
        r
    }

    /// The entries of the Monday-to-Sunday week that holds `day`.
    pub fn get_week(&self, day: &Date) -> (r: &[Entry])
        requires
            self.wf(),
            day.valid(),
            MIN_YEAR < day.year < MAX_YEAR,
        ensures
            selects(self@, entries_view(r@), |st: Stamp| in_week_of(st.date, *day)),
    {
        let monday = day.week_monday();
        let sunday = day.week_sunday();
        let begin = Stamp { date: monday, hour: 0, minute: 0 };
        let end = Stamp { date: sunday, hour: 23, minute: 59 };
        let r = self.get_time_range(begin, end);
        proof {
            let s = self@;
            let (lo, hi) = choose|lo: int, hi: int|
                0 <= lo <= hi <= s.len() && entries_view(r@) == #[trigger] s.subrange(lo, hi)
                    && forall|i: int|
                    0 <= i < s.len() ==> ((lo <= i < hi) <==> (stamp_le(begin, #[trigger] s[i].0)
                        && stamp_le(s[i].0, end)));
            assert forall|i: int| 0 <= i < s.len() implies ((lo <= i < hi) <==> in_week_of(
                #[trigger] s[i].0.date,
                *day,
            )) by {
                assert(writable_stamp(s[i].0));
                assert((stamp_le(begin, s[i].0) && stamp_le(s[i].0, end)) == (lo <= i < hi));
            }
            assert(entries_view(r@) == s.subrange(lo, hi));
        }
        r
    }

    /// The entries of today, by the local clock.
    pub fn get_today(&self) -> (r: &[Entry])
        requires
            self.wf(),
        ensures
            exists|d: Date| d.valid() && selects(self@, entries_view(r@), |st: Stamp| st.date == d),
    {
        let now = local_now();
        self.get_day(&now.date)
    }

    /// The entries of this week, by the local clock; none where the clock
    /// reads a year at the very edge of the calendar.
    pub fn get_this_week(&self) -> (r: &[Entry])
        requires
            self.wf(),
        ensures
            exists|d: Date|
                d.valid() && if MIN_YEAR < d.year < MAX_YEAR {
                    selects(self@, entries_view(r@), |st: Stamp| in_week_of(st.date, d))
                } else {
                    r@.len() == 0
                },
    {
        let now = local_now();
        if MIN_YEAR < now.date.year && now.date.year < MAX_YEAR {
            self.get_week(&now.date)
        } else {
            &self.entries.as_slice()[0..0]
        }
    }

    /// The distinct tasks of `entries`, each once, in order of first
    /// occurrence.
    pub fn get_history(entries: &[Entry]) -> (r: Vec<String>)
        ensures
            strings_view(r@) == history(entries_view(entries@)),
    {
        let ghost s = entries_view(entries@);
        let mut r: Vec<String> = Vec::new();
        let mut i: usize = 0;
        while i < entries.len()
            invariant
                i <= entries@.len(),
                s == entries_view(entries@),
                strings_view(r@) == history(s.subrange(0, i as int)),
            decreases entries@.len() - i,
        {
            let task = &entries[i].task;
            let ghost h = strings_view(r@);
            let mut k: usize = 0;
            while k < r.len() && !(r[k] == *task)
                invariant
                    k <= r@.len(),
                    h == strings_view(r@),
                    forall|j: int| 0 <= j < k ==> h[j] != task@,
                decreases r@.len() - k,
            {
                k += 1;
            }
            proof {
                assert(s.subrange(0, i + 1).drop_last() =~= s.subrange(0, i as int));
                assert(s.subrange(0, i + 1).last() == s[i as int]);
                assert(s[i as int] == entries@[i as int]@);
            }
            if k == r.len() {
                proof {
                    assert(!h.contains(task@));
                }
                r.push(task.clone());
                assert(strings_view(r@) =~= h.push(task@));
            } else {
                assert(h[k as int] == task@);
                assert(h.contains(task@));
            }
            i += 1;
        }
        assert(s.subrange(0, i as int) =~= s);
        r
    }

    /// Appends an entry for `task` ending at `now`, unless `now` is earlier
    /// than the last entry or has a year that the text form cannot write.
    pub fn add_at(&mut self, task: String, now: Stamp) -> (r: Result<(), LogError>)
        requires
            old(self).wf(),
            now.valid(),
        ensures
            final(self).wf(),
            final(self).file_name() == old(self).file_name(),
            added(old(self)@, now, task@, final(self)@, r),
    {
        if now.date.year < 0 || now.date.year > 9999 {
            return Err(LogError::UnwritableTime);
        }
        let n = self.entries.len();
        if n > 0 && !self.entries[n - 1].stop.le(&now) {
            assert(old(self)@.last() == self.entries@[n - 1]@);
            return Err(LogError::OutOfOrder);
        }
        let ghost before = self@;
        let ghost t = task@;
        self.entries.push(Entry { stop: now, task });
        proof {
            assert(self@ =~= before.push((now, t)));
            if n > 0 {
                assert(before.last() == before[n - 1]);
            }
            assert forall|i: int| 0 < i < self@.len() implies stamp_le(
                #[trigger] self@[i - 1].0,
                self@[i].0,
            ) by {
                if i < n {
                    assert(self@[i] == before[i]);
                    assert(self@[i - 1] == before[i - 1]);
                }
            }
            assert forall|i: int| 0 <= i < self@.len() implies writable_stamp(
                #[trigger] self@[i].0,
            ) by {
                if i < n {
                    assert(self@[i] == before[i]);
                }
            }
        }
        Ok(())
    }

    /// Appends an entry for `task` ending now, by the local clock; refused as
    /// `add_at` refuses.
    pub fn add(&mut self, task: String) -> (r: Result<(), LogError>)
        requires
            old(self).wf(),
        ensures
            final(self).wf(),
            final(self).file_name() == old(self).file_name(),
            exists|now: Stamp| now.valid() && added(old(self)@, now, task@, final(self)@, r),
    {
        let now = local_now();
        self.add_at(task, now)
    }
    /// The lines of a text that are neither blank nor hold an entry, trimmed:
    /// those that reading the text skips.
    pub fn skipped_lines(raw: &str) -> (r: Vec<String>)
        ensures
            strings_view(r@) == skipped(lines(raw@)),
    {
        let c = chars_of(raw);
        let n = c.len();
        let mut r: Vec<String> = Vec::new();
        let ghost mut done: Seq<Seq<char>> = seq![];
        let mut start: usize = 0;
        let mut i: usize = 0;
        assert(c@.subrange(0, 0) =~= Seq::<char>::empty());
        while i < n
            invariant
                n == c@.len(),
                c@ == raw@,
                start <= i <= n,
                lines(c@.subrange(0, i as int)) == done.push(c@.subrange(start as int, i as int)),
                strings_view(r@) == skipped(done),
            decreases n - i,
        {
            proof {
                lemma_lines_step(c@, i as int);
            }
            if c[i] == '\n' {
                let line = &c.as_slice()[start..i];
                push_skipped(&mut r, line);
                proof {
                    let d2 = done.push(line@);
                    assert(d2.drop_last() == done);
                    assert(d2.last() == line@);
                    assert(c@.subrange(i + 1, i + 1) =~= Seq::<char>::empty());
                    done = d2;
                }
                start = i + 1;
            } else {
                assert(c@.subrange(start as int, i + 1) =~= c@.subrange(start as int, i as int).push(
                    c@[i as int],
                ));
            }
            i += 1;
        }
        let line = &c.as_slice()[start..n];
        push_skipped(&mut r, line);
        proof {
            let d2 = done.push(line@);
            assert(d2.drop_last() == done);
            assert(d2.last() == line@);
            assert(c@.subrange(0, n as int) =~= c@);
        }
        r
    }
}

} // verus!
