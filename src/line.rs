//! The text form of one entry: `YYYY-MM-DD HH:MM: <task>`.

use crate::entry::Entry;
use crate::text::{digit_char, is_space, is_space_char, push_chars, push_str, string_of};
use crate::time::{valid_ymd, Date, Stamp};
use vstd::prelude::*;

verus! {

/// `s` without its leading whitespace.
pub open spec fn trim_start(s: Seq<char>) -> Seq<char>
    decreases s.len(),
{
    if s.len() > 0 && is_space(s[0]) {
        trim_start(s.drop_first())
    } else {
        s
    }
}

/// `s` without its trailing whitespace.
pub open spec fn trim_end(s: Seq<char>) -> Seq<char>
    decreases s.len(),
{
    if s.len() > 0 && is_space(s.last()) {
        trim_end(s.drop_last())
    } else {
        s
    }
}

pub open spec fn trim(s: Seq<char>) -> Seq<char> {
    trim_end(trim_start(s))
}

/// Whether `": "` starts at `i`.
pub open spec fn sep_at(t: Seq<char>, i: int) -> bool {
    0 <= i && i + 1 < t.len() && t[i] == ':' && t[i + 1] == ' '
}

/// The first position at or after `k` where `": "` starts, or -1.
pub open spec fn find_sep(t: Seq<char>, k: int) -> int
    decreases t.len() - k,
{
    if k < 0 || k + 1 >= t.len() {
        -1
    } else if sep_at(t, k) {
        k
    } else {
        find_sep(t, k + 1)
    }
}

pub open spec fn is_digit(c: char) -> bool {
    '0' <= c && c <= '9'
}

pub open spec fn digit_value(c: char) -> int {
    c as u32 - 48
}

pub open spec fn two_digits(t: Seq<char>, i: int) -> int {
    digit_value(t[i]) * 10 + digit_value(t[i + 1])
}

pub open spec fn four_digits(t: Seq<char>, i: int) -> int {
    two_digits(t, i) * 100 + two_digits(t, i + 2)
}

/// Exactly the shape `DDDD-DD-DD DD:DD`, `D` a decimal digit.
pub open spec fn stamp_shape(t: Seq<char>) -> bool {
    &&& t.len() == 16
    &&& is_digit(t[0]) && is_digit(t[1]) && is_digit(t[2]) && is_digit(t[3])
    &&& t[4] == '-' && is_digit(t[5]) && is_digit(t[6])
    &&& t[7] == '-' && is_digit(t[8]) && is_digit(t[9])
    &&& t[10] == ' ' && is_digit(t[11]) && is_digit(t[12])
    &&& t[13] == ':' && is_digit(t[14]) && is_digit(t[15])
}

/// The stamp written as `YYYY-MM-DD HH:MM`, if the text has that shape and
/// names an existing day and time.
pub open spec fn parse_stamp(t: Seq<char>) -> Option<Stamp> {
    if stamp_shape(t) && valid_ymd(four_digits(t, 0), two_digits(t, 5), two_digits(t, 8))
        && two_digits(t, 11) < 24 && two_digits(t, 14) < 60 {
        Some(
            Stamp {
                date: Date {
                    year: four_digits(t, 0) as i32,
                    month: two_digits(t, 5) as u32,
                    day: two_digits(t, 8) as u32,
                },
                hour: two_digits(t, 11) as u32,
                minute: two_digits(t, 14) as u32,
            },
        )
    } else {
        None
    }
}

/// One line of the log, if it holds an entry: the trimmed line split at its
/// first `": "` into a stamp and the task.
pub open spec fn parse_line(line: Seq<char>) -> Option<(Stamp, Seq<char>)> {
    let t = trim(line);
    let k = find_sep(t, 0);
    if k < 0 {
        None
    } else {
        match parse_stamp(t.subrange(0, k)) {
            Some(st) => Some((st, t.subrange(k + 2, t.len() as int))),
            None => None,
        }
    }
}

pub open spec fn two_digit_text(n: int) -> Seq<char> {
    seq![digit_char(n / 10), digit_char(n % 10)]
}

/// `YYYY-MM-DD HH:MM`, for a year of four digits.
pub open spec fn stamp_text(s: Stamp) -> Seq<char> {
    let y = s.date.year as int;
    two_digit_text(y / 100) + two_digit_text(y % 100) + seq!['-'] + two_digit_text(s.date.month as int) + seq!['-'] + two_digit_text(
        s.date.day as int,
    ) + seq![' '] + two_digit_text(s.hour as int) + seq![':'] + two_digit_text(
        s.minute as int,
    )
}

/// The line of an entry, without its newline.
pub open spec fn line_text(e: (Stamp, Seq<char>)) -> Seq<char> {
    stamp_text(e.0) + ": "@ + e.1
}

/// A stamp that the log format can write: valid, with a four-digit year.
pub open spec fn writable_stamp(s: Stamp) -> bool {
    s.valid() && 0 <= s.date.year <= 9999
}

/// An entry whose line reads back as the same entry: a writable stamp, and a
/// task on one line that does not end in whitespace.
pub open spec fn writable_entry(e: (Stamp, Seq<char>)) -> bool {
    &&& writable_stamp(e.0)
    &&& e.1.len() > 0
    &&& !is_space(e.1.last())
    &&& forall|i: int| 0 <= i < e.1.len() ==> e.1[i] != '\n'
}

pub open spec fn option_entry_view(r: Option<Entry>) -> Option<(Stamp, Seq<char>)> {
    match r {
        Some(e) => Some(e@),
        None => None,
    }
}

proof fn lemma_digit(n: int)
    requires
        0 <= n < 10,
    ensures
        is_digit(digit_char(n)),
        digit_value(digit_char(n)) == n,
        !is_space(digit_char(n)),
        digit_char(n) != ':',
        digit_char(n) != '\n',
{
}

proof fn lemma_two_digits(t: Seq<char>, i: int, n: int)
    requires
        0 <= n < 100,
        0 <= i,
        i + 1 < t.len(),
        t.subrange(i, i + 2) == two_digit_text(n),
    ensures
        is_digit(t[i]) && is_digit(t[i + 1]),
        two_digits(t, i) == n,
{
    lemma_digit(n / 10);
    lemma_digit(n % 10);
    assert(t[i] == t.subrange(i, i + 2)[0]);
    assert(t[i + 1] == t.subrange(i, i + 2)[1]);
}

proof fn lemma_find_sep_first(t: Seq<char>, k: int, i: int)
    requires
        0 <= k <= i,
        sep_at(t, i),
        forall|j: int| k <= j < i ==> !sep_at(t, j),
    ensures
        find_sep(t, k) == i,
    decreases i - k,
{
    if k < i {
        lemma_find_sep_first(t, k + 1, i);
    }
}

pub proof fn lemma_find_sep_range(t: Seq<char>, k: int)
    requires
        0 <= k,
    ensures
        find_sep(t, k) == -1 || (k <= find_sep(t, k) && sep_at(t, find_sep(t, k))),
    decreases t.len() - k,
{
    if k + 1 < t.len() && !sep_at(t, k) {
        lemma_find_sep_range(t, k + 1);
    }
}

/// The text of a writable stamp reads back as that stamp.
proof fn lemma_stamp_round_trip(s: Stamp)
    requires
        writable_stamp(s),
    ensures
        stamp_text(s).len() == 16,
        parse_stamp(stamp_text(s)) == Some(s),
        forall|i: int| 0 <= i < 16 ==> #[trigger] stamp_text(s)[i] != '\n',
        forall|i: int| 0 <= i < 16 ==> !sep_at(stamp_text(s), i),
        is_digit(stamp_text(s)[0]),
{
    let t = stamp_text(s);
    let y = s.date.year as int;
    assert(t.subrange(0, 2) =~= two_digit_text(y / 100));
    assert(t.subrange(2, 4) =~= two_digit_text(y % 100));
    assert(t.subrange(5, 7) =~= two_digit_text(s.date.month as int));
    assert(t.subrange(8, 10) =~= two_digit_text(s.date.day as int));
    assert(t.subrange(11, 13) =~= two_digit_text(s.hour as int));
    assert(t.subrange(14, 16) =~= two_digit_text(s.minute as int));
    lemma_two_digits(t, 0, y / 100);
    lemma_two_digits(t, 2, y % 100);
    lemma_two_digits(t, 5, s.date.month as int);
    lemma_two_digits(t, 8, s.date.day as int);
    lemma_two_digits(t, 11, s.hour as int);
    lemma_two_digits(t, 14, s.minute as int);
    assert(four_digits(t, 0) == y);
    assert(parse_stamp(t) == Some(s));
}

/// The line of a writable entry reads back as that entry.
pub proof fn lemma_line_round_trip(e: (Stamp, Seq<char>))
    requires
        writable_entry(e),
    ensures
        parse_line(line_text(e)) == Some(e),
        forall|i: int| 0 <= i < line_text(e).len() ==> line_text(e)[i] != '\n',
{
    let l = line_text(e);
    let st = stamp_text(e.0);
    reveal_strlit(": ");
    lemma_stamp_round_trip(e.0);
    assert(l[0] == st[0]);
    assert(trim_start(l) == l);
    assert(l.last() == e.1.last());
    assert(trim_end(l) == l);
    assert forall|j: int| 0 <= j < 16 implies !sep_at(l, j) by {
        assert(l[j] == st[j]);
        if j < 15 {
            assert(l[j + 1] == st[j + 1]);
        } else {
            assert(l[16] == ':');
        }
    }
    assert(l[16] == ':' && l[17] == ' ');
    lemma_find_sep_first(l, 0, 16);
    assert(l.subrange(0, 16) =~= st);
    assert(l.subrange(18, l.len() as int) =~= e.1);
    assert forall|i: int| 0 <= i < l.len() implies l[i] != '\n' by {
        if i < 16 {
            assert(l[i] == st[i]);
        } else if i >= 18 {
            assert(l[i] == e.1[i - 18]);
        }
    }
}

fn is_digit_char(c: char) -> (r: bool)
    ensures
        r == is_digit(c),
{
    '0' <= c && c <= '9'
}

fn two_digits_at(t: &[char], i: usize) -> (r: u32)
    requires
        i + 1 < t@.len(),
        is_digit(t@[i as int]),
        is_digit(t@[i + 1]),
    ensures
        r == two_digits(t@, i as int),
{
    ((t[i] as u32) - 48) * 10 + ((t[i + 1] as u32) - 48)
}

/// Reads `YYYY-MM-DD HH:MM`.
pub fn parse_stamp_chars(t: &[char]) -> (r: Option<Stamp>)
    ensures
        r == parse_stamp(t@),
{
    if t.len() != 16 {
        return None;
    }
    if !(is_digit_char(t[0]) && is_digit_char(t[1]) && is_digit_char(t[2]) && is_digit_char(t[3])
        && t[4] == '-' && is_digit_char(t[5]) && is_digit_char(t[6]) && t[7] == '-'
        && is_digit_char(t[8]) && is_digit_char(t[9]) && t[10] == ' ' && is_digit_char(t[11])
        && is_digit_char(t[12]) && t[13] == ':' && is_digit_char(t[14]) && is_digit_char(
        t[15],
    )) {
        return None;
    }
    let year = two_digits_at(t, 0) * 100 + two_digits_at(t, 2);
    let month = two_digits_at(t, 5);
    let day = two_digits_at(t, 8);
    let hour = two_digits_at(t, 11);
    let minute = two_digits_at(t, 14);
    match Date::from_ymd_opt(year as i32, month, day) {
        Some(date) => {
            if hour < 24 && minute < 60 {
                Some(Stamp { date, hour, minute })
            } else {
                None
            }
        },
        None => None,
    }
}

/// The bounds of `s` without its leading and trailing whitespace.
pub(crate) fn trim_bounds(s: &[char]) -> (r: (usize, usize))
    ensures
        r.0 <= r.1 <= s@.len(),
        trim(s@) == s@.subrange(r.0 as int, r.1 as int),
{
    let n = s.len();
    let mut lo: usize = 0;
    assert(s@.subrange(0, n as int) =~= s@);
    while lo < n && is_space_char(s[lo])
        invariant
            n == s@.len(),
            lo <= n,
            trim_start(s@) == trim_start(s@.subrange(lo as int, n as int)),
        decreases n - lo,
    {
        assert(s@.subrange(lo as int, n as int).drop_first() =~= s@.subrange(
            lo + 1,
            n as int,
        ));
        lo += 1;
    }
    let mut hi: usize = n;
    while hi > lo && is_space_char(s[hi - 1])
        invariant
            n == s@.len(),
            lo <= hi <= n,
            trim_start(s@) == s@.subrange(lo as int, n as int),
            trim(s@) == trim_end(s@.subrange(lo as int, hi as int)),
        decreases hi,
    {
        assert(s@.subrange(lo as int, hi as int).drop_last() =~= s@.subrange(
            lo as int,
            hi - 1,
        ));
        hi -= 1;
    }
    (lo, hi)
}

/// Reads one line of the log: `None` for a blank line, for a line without
/// `": "`, and for a line whose part before it is not a valid stamp.
pub fn parse_line_chars(line: &[char]) -> (r: Option<Entry>)
    ensures
        option_entry_view(r) == parse_line(line@),
{
    let (lo, hi) = trim_bounds(line);
    let t = &line[lo..hi];
    let n = t.len();
    if n < 2 {
        return None;
    }
    let mut k: usize = 0;
    while k < n - 1 && !(t[k] == ':' && t[k + 1] == ' ')
        invariant
            n == t@.len(),
            n >= 2,
            k <= n - 1,
            find_sep(t@, 0) == find_sep(t@, k as int),
        decreases n - k,
    {
        k += 1;
    }
    if k >= n - 1 {
        return None;
    }
    match parse_stamp_chars(&t[0..k]) {
        Some(stop) => Some(Entry { stop, task: string_of(&t[k + 2..n]) }),
        None => None,
    }
}

fn push_two_digits(out: &mut Vec<char>, n: u32)
    requires
        n < 100,
    ensures
        final(out)@ == old(out)@ + two_digit_text(n as int),
{
    out.push(crate::text::digit((n / 10) as u64));
    out.push(crate::text::digit((n % 10) as u64));
    assert(final(out)@ =~= old(out)@ + two_digit_text(n as int));
}

/// Appends `YYYY-MM-DD HH:MM`.
pub fn push_stamp(out: &mut Vec<char>, s: &Stamp)
    requires
        writable_stamp(*s),
    ensures
        final(out)@ == old(out)@ + stamp_text(*s),
{
    let y = s.date.year as u32;
    push_two_digits(out, y / 100);
    push_two_digits(out, y % 100);
    out.push('-');
    push_two_digits(out, s.date.month);
    out.push('-');
    push_two_digits(out, s.date.day);
    out.push(' ');
    push_two_digits(out, s.hour);
    out.push(':');
    push_two_digits(out, s.minute);
    assert(final(out)@ =~= old(out)@ + stamp_text(*s));
}

/// Appends the line of an entry, without its newline.
pub fn push_line(out: &mut Vec<char>, e: &Entry)
    requires
        writable_stamp(e.stop),
    ensures
        final(out)@ == old(out)@ + line_text(e@),
{
    push_stamp(out, &e.stop);
    push_str(out, ": ");
    push_str(out, e.task.as_str());
    assert(final(out)@ =~= old(out)@ + line_text(e@));
}

impl Entry {
    /// The entry's line, `YYYY-MM-DD HH:MM: <task>`.
    pub fn to_text(&self) -> (r: String)
        requires
            writable_stamp(self.stop),
        ensures
            r@ == line_text(self@),
    {
        let mut out: Vec<char> = Vec::new();
        push_line(&mut out, self);
        string_of(out.as_slice())
    }
}

} // verus!
