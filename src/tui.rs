//! Commands of the full-screen prompt, where a mode takes a count: `:d3`
//! shows three days, `:w2` two weeks.

use crate::line::{digit_value, is_digit};
use crate::text::{chars_of, push_str, string_of};
use vstd::prelude::*;

verus! {

/// The span of time that the report covers, in days or in weeks.
#[derive(PartialEq, Eq, Debug, Structural)]
pub enum TimeMode {
    Day(u32),
    Week(u32),
}

#[derive(PartialEq, Debug)]
pub enum Command {
    Nothing,
    Quit,
    Help,
    Edit,
    SwitchMode(TimeMode),
    Add(String),
    Error(String),
}

/// Value of a string of decimal digits.
pub open spec fn digits_value(d: Seq<char>) -> int
    decreases d.len(),
{
    if d.len() == 0 {
        0
    } else {
        digits_value(d.drop_last()) * 10 + digit_value(d.last())
    }
}

pub open spec fn all_digits(d: Seq<char>) -> bool {
    forall|i: int| 0 <= i < d.len() ==> is_digit(#[trigger] d[i])
}

/// The text without one leading `+`, if it has one.
pub open spec fn unsigned_text(s: Seq<char>) -> Seq<char> {
    if s.len() > 0 && s[0] == '+' {
        s.drop_first()
    } else {
        s
    }
}

/// `u32::from_str`: an optional `+`, then at least one decimal digit, and a
/// value that fits.
pub open spec fn parse_u32(s: Seq<char>) -> Option<u32> {
    let d = unsigned_text(s);
    if d.len() > 0 && all_digits(d) && digits_value(d) <= u32::MAX {
        Some(digits_value(d) as u32)
    } else {
        None
    }
}

/// Starts with `:` and then the letter `b`.
pub open spec fn starts_with_mode(s: Seq<char>, b: char) -> bool {
    s.len() >= 2 && s[0] == ':' && s[1] == b
}

/// One of the inputs that name a command by themselves.
pub open spec fn is_keyword(s: Seq<char>) -> bool {
    s == ":q"@ || s == ":h"@ || s == ":e"@ || s == ":w"@ || s == ":d"@
}

proof fn lemma_digits_value_prefix(d: Seq<char>, k: int)
    requires
        all_digits(d),
        0 <= k <= d.len(),
    ensures
        0 <= digits_value(d.subrange(0, k)) <= digits_value(d),
    decreases d.len(),
{
    if d.len() > 0 {
        let p = d.drop_last();
        assert(is_digit(d[d.len() - 1]));
        if k < d.len() {
            lemma_digits_value_prefix(p, k);
            assert(p.subrange(0, k) =~= d.subrange(0, k));
        } else {
            lemma_digits_value_prefix(p, k - 1);
            assert(d.subrange(0, k) =~= d);
        }
    } else {
        assert(d.subrange(0, k) =~= d);
    }
}

/// Reads an unsigned 32-bit number as `u32::from_str` does.
pub fn parse_u32_chars(s: &[char]) -> (r: Option<u32>)
    ensures
        r == parse_u32(s@),
{
    let start: usize = if s.len() > 0 && s[0] == '+' {
        1
    } else {
        0
    };
    let d = &s[start..s.len()];
    assert(d@ =~= unsigned_text(s@));
    if d.len() == 0 {
        return None;
    }
    let mut v: u64 = 0;
    let mut i: usize = 0;
    assert(d@.subrange(0, 0) =~= Seq::<char>::empty());
    while i < d.len()
        invariant
            i <= d@.len(),
            d@ == unsigned_text(s@),
            v == digits_value(d@.subrange(0, i as int)),
            v <= u32::MAX,
            forall|j: int| 0 <= j < i ==> is_digit(#[trigger] d@[j]),
        decreases d@.len() - i,
    {
        let c = d[i];
        if !('0' <= c && c <= '9') {
            assert(!is_digit(d@[i as int]));
            assert(!all_digits(d@));
            assert(unsigned_text(s@) == d@);
            assert(parse_u32(s@) is None);
            return None;
        }
        assert(d@.subrange(0, i + 1).drop_last() =~= d@.subrange(0, i as int));
        assert(d@.subrange(0, i + 1).last() == c);
        let nv = v * 10 + ((c as u32) - 48) as u64;
        assert(nv == digits_value(d@.subrange(0, i + 1)));
        if nv > 0xffff_ffff {
            proof {
                if all_digits(d@) {
                    lemma_digits_value_prefix(d@, i + 1);
                    assert(digits_value(d@) > u32::MAX);
                }
                assert(unsigned_text(s@) == d@);
                assert(parse_u32(s@) is None);
            }
            return None;
        }
        v = nv;
        i += 1;
    }
    assert(d@.subrange(0, i as int) =~= d@);
    Some(v as u32)
}

fn error(msg: &str) -> (r: Command)
    ensures
        r matches Command::Error(m) && m@ == msg@,
{
    let mut m: Vec<char> = Vec::new();
    push_str(&mut m, msg);
    Command::Error(string_of(m.as_slice()))
}

impl Command {
    /// The command of a line of input: the empty line does nothing; `:q`,
    /// `:h` and `:e` name commands; `:d` and `:w` switch to one day or week,
    /// and `:dN`, `:wN` to `N` of them; any other line that starts with `:`
    /// is an error, and the rest is a task to add.
    pub fn parse(input: String) -> (r: Command)
        ensures
            input@.len() == 0 ==> r is Nothing,
            input@ == ":q"@ ==> r is Quit,
            input@ == ":h"@ ==> r is Help,
            input@ == ":e"@ ==> r is Edit,
            input@ == ":w"@ ==> r == Command::SwitchMode(TimeMode::Week(1)),
            input@ == ":d"@ ==> r == Command::SwitchMode(TimeMode::Day(1)),
            !is_keyword(input@) && starts_with_mode(input@, 'd') ==> match parse_u32(
                input@.subrange(2, input@.len() as int),
            ) {
                Some(n) => r == Command::SwitchMode(TimeMode::Day(n)),
                None => (r matches Command::Error(m) && m@ == "Invalid day number"@),
            },
            !is_keyword(input@) && starts_with_mode(input@, 'w') ==> match parse_u32(
                input@.subrange(2, input@.len() as int),
            ) {
                Some(n) => r == Command::SwitchMode(TimeMode::Week(n)),
                None => (r matches Command::Error(m) && m@ == "Invalid week number"@),
            },
            input@.len() > 0 && input@[0] == ':' && !is_keyword(input@) && !starts_with_mode(
                input@,
                'd',
            ) && !starts_with_mode(input@, 'w') ==> (r matches Command::Error(m) && m@
                == "Unknown command"@),
            input@.len() > 0 && input@[0] != ':' ==> (r matches Command::Add(t) && t@ == input@),
    {
        proof {
            reveal_strlit(":q");
            reveal_strlit(":h");
            reveal_strlit(":e");
            reveal_strlit(":w");
            reveal_strlit(":d");
        }
        let c = chars_of(input.as_str());
        let n = c.len();
        if n == 0 {
            return Command::Nothing;
        }
        if c[0] != ':' {
            return Command::Add(input);
        }
        if n == 2 {
            if c[1] == 'q' {
                assert(input@ =~= ":q"@);
                return Command::Quit;
            } else if c[1] == 'h' {
                assert(input@ =~= ":h"@);
                return Command::Help;
            } else if c[1] == 'e' {
                assert(input@ =~= ":e"@);
                return Command::Edit;
            } else if c[1] == 'w' {
                assert(input@ =~= ":w"@);
                return Command::SwitchMode(TimeMode::Week(1));
            } else if c[1] == 'd' {
                assert(input@ =~= ":d"@);
                return Command::SwitchMode(TimeMode::Day(1));
            }
        }
        assert(!is_keyword(input@)) by {
            if n == 2 {
                assert(input@[1] != 'q' && input@[1] != 'h' && input@[1] != 'e' && input@[1]
                    != 'w' && input@[1] != 'd');
            }
        }
        if n >= 2 && c[1] == 'd' {
            match parse_u32_chars(&c.as_slice()[2..n]) {
                Some(k) => Command::SwitchMode(TimeMode::Day(k)),
                None => error("Invalid day number"),
            }
        } else if n >= 2 && c[1] == 'w' {
            match parse_u32_chars(&c.as_slice()[2..n]) {
                Some(k) => Command::SwitchMode(TimeMode::Week(k)),
                None => error("Invalid week number"),
            }
        } else {
            error("Unknown command")
        }
    }
}

} // verus!
