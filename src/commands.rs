//! Commands of the interactive prompt.

use crate::text::{chars_of, push_chars, push_str, string_of};
use vstd::prelude::*;

verus! {

/// The span of time that the report covers.
#[derive(PartialEq, Eq, Debug, Structural)]
pub enum TimeMode {
    Day,
    Week,
}

#[derive(PartialEq, Debug)]
pub enum Command {
    Nothing,
    Quit,
    Help,
    Edit,
    SwitchMode(TimeMode),
    Add(String),
    Error(String),
}

/// One of the inputs that name a command by themselves.
pub open spec fn is_keyword(s: Seq<char>) -> bool {
    s == ""@ || s == ":q"@ || s == ":h"@ || s == ":e"@ || s == ":w"@ || s == ":d"@
}

impl Command {
    /// The command of a line of input: the empty line does nothing, `:q`,
    /// `:h`, `:e`, `:w` and `:d` name commands, any other line that starts
    /// with `:` is an error, and the rest is a task to add.
    pub fn parse(input: String) -> (r: Command)
        ensures
            input@ == ""@ ==> r is Nothing,
            input@ == ":q"@ ==> r is Quit,
            input@ == ":h"@ ==> r is Help,
            input@ == ":e"@ ==> r is Edit,
            input@ == ":w"@ ==> r == Command::SwitchMode(TimeMode::Week),
            input@ == ":d"@ ==> r == Command::SwitchMode(TimeMode::Day),
            !is_keyword(input@) && input@[0] == ':' ==> (r matches Command::Error(m) && m@
                == "Unknown command: "@ + input@),
            !is_keyword(input@) && input@[0] != ':' ==> (r matches Command::Add(t) && t@
                == input@),
    {
        proof {
            reveal_strlit("");
            reveal_strlit(":q");
            reveal_strlit(":h");
            reveal_strlit(":e");
            reveal_strlit(":w");
            reveal_strlit(":d");
        }
        let c = chars_of(input.as_str());
        if c.len() == 0 {
            assert(input@ =~= ""@);
            return Command::Nothing;
        }
        if c.len() == 2 && c[0] == ':' {
            if c[1] == 'q' {
                assert(input@ =~= ":q"@);
                return Command::Quit;
            } else if c[1] == 'h' {
                assert(input@ =~= ":h"@);
                return Command::Help;
            } else if c[1] == 'e' {
                assert(input@ =~= ":e"@);
                return Command::Edit;
            } else if c[1] == 'w' {
                assert(input@ =~= ":w"@);
                return Command::SwitchMode(TimeMode::Week);
            } else if c[1] == 'd' {
                assert(input@ =~= ":d"@);
                return Command::SwitchMode(TimeMode::Day);
            }
        }
        assert(!is_keyword(input@)) by {
            if c@.len() == 2 && c@[0] == ':' {
                assert(input@[1] != 'q' && input@[1] != 'h' && input@[1] != 'e' && input@[1]
                    != 'w' && input@[1] != 'd');
            }
        }
        if c[0] == ':' {
            let mut m: Vec<char> = Vec::new();
            push_str(&mut m, "Unknown command: ");
            push_chars(&mut m, c.as_slice());
            Command::Error(string_of(m.as_slice()))
        } else {
            Command::Add(input)
        }
    }
}

} // verus!
