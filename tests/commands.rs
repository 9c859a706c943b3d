use rtimelog::commands::{Command, TimeMode};
use rtimelog::tui;
use rtimelog::tui::{Command as TuiCommand, TimeMode as TuiMode};

#[test]
fn commands_test_parse() {
    assert_eq!(Command::parse("".to_string()), Command::Nothing);
    assert_eq!(Command::parse(":q".to_string()), Command::Quit);
    assert_eq!(Command::parse(":h".to_string()), Command::Help);
    assert_eq!(Command::parse(":e".to_string()), Command::Edit);
    assert_eq!(
        Command::parse(":w".to_string()),
        Command::SwitchMode(TimeMode::Week)
    );
    assert_eq!(
        Command::parse(":d".to_string()),
        Command::SwitchMode(TimeMode::Day)
    );
    assert_eq!(
        Command::parse("foo".to_string()),
        Command::Add("foo".to_string())
    );
    // unknown command letter
    assert_eq!(
        Command::parse(":x".to_string()),
        Command::Error("Unknown command: :x".to_string())
    );
    // trailing garbage
    assert_eq!(
        Command::parse(":e2".to_string()),
        Command::Error("Unknown command: :e2".to_string())
    );
}

#[test]
fn test_parse() {
    assert_eq!(TuiCommand::parse("".to_string()), TuiCommand::Nothing);
    assert_eq!(TuiCommand::parse(":q".to_string()), TuiCommand::Quit);
    assert_eq!(TuiCommand::parse(":h".to_string()), TuiCommand::Help);
    assert_eq!(TuiCommand::parse(":e".to_string()), TuiCommand::Edit);
    assert_eq!(
        TuiCommand::parse(":w".to_string()),
        TuiCommand::SwitchMode(TuiMode::Week(1))
    );
    assert_eq!(
        TuiCommand::parse(":w2".to_string()),
        TuiCommand::SwitchMode(TuiMode::Week(2))
    );
    assert_eq!(
        TuiCommand::parse(":d".to_string()),
        TuiCommand::SwitchMode(TuiMode::Day(1))
    );
    assert_eq!(
        TuiCommand::parse(":d7".to_string()),
        TuiCommand::SwitchMode(TuiMode::Day(7))
    );
    assert_eq!(
        TuiCommand::parse("foo".to_string()),
        TuiCommand::Add("foo".to_string())
    );
    // unknown command letter
    assert_eq!(
        TuiCommand::parse(":x".to_string()),
        TuiCommand::Error("Unknown command".to_string())
    );
    // trailing garbage
    assert_eq!(
        TuiCommand::parse(":e2".to_string()),
        TuiCommand::Error("Unknown command".to_string())
    );
    // invalid day/week args
    assert_eq!(
        TuiCommand::parse(":da".to_string()),
        TuiCommand::Error("Invalid day number".to_string())
    );
    assert_eq!(
        TuiCommand::parse(":w ".to_string()),
        TuiCommand::Error("Invalid week number".to_string())
    );
}

#[test]
fn tui_parse_counts() {
    assert_eq!(
        TuiCommand::parse(":d+5".to_string()),
        TuiCommand::SwitchMode(TuiMode::Day(5))
    );
    assert_eq!(
        TuiCommand::parse(":w4294967295".to_string()),
        TuiCommand::SwitchMode(TuiMode::Week(4294967295))
    );
    assert_eq!(
        TuiCommand::parse(":d4294967296".to_string()),
        TuiCommand::Error("Invalid day number".to_string())
    );
    assert_eq!(
        TuiCommand::parse(":d-1".to_string()),
        TuiCommand::Error("Invalid day number".to_string())
    );
    assert_eq!(
        TuiCommand::parse(":w+".to_string()),
        TuiCommand::Error("Invalid week number".to_string())
    );
    assert_eq!(
        TuiCommand::parse(":qq".to_string()),
        TuiCommand::Error("Unknown command".to_string())
    );
    assert_eq!(
        TuiCommand::parse("write docs".to_string()),
        TuiCommand::Add("write docs".to_string())
    );
}

#[test]
fn parse_u32_like_std() {
    let cases = ["0", "+7", "007", "", "+", "12a", "4294967295", "4294967296", "99999999999"];
    for c in cases {
        let chars: Vec<char> = c.chars().collect();
        assert_eq!(tui::parse_u32_chars(&chars), c.parse::<u32>().ok(), "{}", c);
    }
}
