use rshell::errors::{Failures, Fault};
use rshell::parser::rcommand::Error::InvalidCommand;
use rshell::parser::rcommand::{Error, RCommand};
use rshell::shell::{next_action, Action, Config, ReadEvent};

#[test]
fn background_parse_test() {
    let rcommand_with_background = RCommand::new(&"ls -lah &".to_string()).unwrap();
    let rcommand_without_background = RCommand::new(&"ls -lah".to_string()).unwrap();
    assert_eq!(rcommand_with_background.background, true);
    assert_eq!(rcommand_without_background.background, false);
}

#[test]
fn parse_test() {
    let rcommand = RCommand::new(&"ls -lah &".to_string()).unwrap();
    assert_eq!(rcommand.args, vec!["ls", "-lah"]);
}

#[test]
fn empty_cmd_test() {
    let rcommand = RCommand::new(&"".to_string());
    assert_eq!(rcommand, Err(InvalidCommand));
}

#[test]
fn blank_line_is_a_command_without_arguments() {
    let rcommand = RCommand::new(&"  \t ".to_string()).unwrap();
    assert!(rcommand.args.is_empty());
    assert_eq!(rcommand.background, false);
}

#[test]
fn lone_ampersand_is_only_the_flag() {
    let rcommand = RCommand::new(&"&".to_string()).unwrap();
    assert!(rcommand.args.is_empty());
    assert_eq!(rcommand.background, true);
}

#[test]
fn ampersand_counts_only_as_the_last_field() {
    let inner = RCommand::new(&"a & b".to_string()).unwrap();
    assert_eq!(inner.args, vec!["a", "&", "b"]);
    assert_eq!(inner.background, false);
    let glued = RCommand::new(&"sleep 1&".to_string()).unwrap();
    assert_eq!(glued.args, vec!["sleep", "1&"]);
    assert_eq!(glued.background, false);
    let twice = RCommand::new(&"a & &".to_string()).unwrap();
    assert_eq!(twice.args, vec!["a", "&"]);
    assert_eq!(twice.background, true);
}

#[test]
fn fields_split_on_any_white_space() {
    let rcommand = RCommand::new(&"  ls\t-l\n\u{a0}a\u{3000}b\u{200b}c \r".to_string()).unwrap();
    assert_eq!(rcommand.args, vec!["ls", "-l", "a", "b\u{200b}c"]);
    assert_eq!(rcommand.background, false);
}

#[test]
fn faults_map_to_failures() {
    assert_eq!(Failures::from(Fault::Eof), Failures::EOF);
    assert_eq!(Failures::from(Fault::Io), Failures::SysError);
    assert_eq!(Failures::from(Fault::Interrupted), Failures::SysError);
    assert_eq!(Failures::from(Fault::Errno), Failures::SysError);
    assert_eq!(Failures::from(Fault::Signal), Failures::SysError);
}

#[test]
fn config_keeps_what_it_was_given() {
    let cfg = Config::new("history.txt", ">> ");
    assert_eq!(cfg.history_path(), "history.txt");
    assert_eq!(cfg.prompt(), ">> ");
}

#[test]
fn a_line_is_run() {
    let action = next_action(ReadEvent::Line("ls -lah &".to_string()));
    let expected = RCommand { args: vec!["ls".to_string(), "-lah".to_string()], background: true };
    assert_eq!(action, Action::Run(expected));
}

#[test]
fn an_empty_line_is_refused() {
    assert_eq!(next_action(ReadEvent::Line(String::new())), Action::Refuse(Error::InvalidCommand));
}

#[test]
fn a_failed_read_ends_the_loop() {
    assert_eq!(next_action(ReadEvent::Failed(Fault::Eof)), Action::Stop);
    assert_eq!(next_action(ReadEvent::Failed(Fault::Interrupted)), Action::Stop);
    assert_eq!(next_action(ReadEvent::Failed(Fault::Io)), Action::Report(Fault::Io));
    assert_eq!(next_action(ReadEvent::Failed(Fault::Errno)), Action::Report(Fault::Errno));
    assert_eq!(next_action(ReadEvent::Failed(Fault::Signal)), Action::Report(Fault::Signal));
}

#[test]
fn failures_in_words() {
    assert_eq!(Failures::SysError.message(), "SysError");
    assert_eq!(Failures::EOF.message(), "EOF");
}
