//! The decisions of the interactive loop. Reading a line and running a
//! command are the caller's work; what to do after each read is decided here.
use crate::errors::Fault;
use crate::parser::rcommand::{command_of, Error, RCommand};
use vstd::prelude::*;

verus! {

/// Where the history is kept and what the prompt says.
pub struct Config<'a> {
    history_path: &'a str,
    prompt: &'a str,
}

impl<'a> Config<'a> {
    /// The path of the history file.
    pub closed spec fn history_path_text(&self) -> Seq<char> {
        self.history_path@
    }

    /// The prompt.
    pub closed spec fn prompt_text(&self) -> Seq<char> {
        self.prompt@
    }

    pub fn new(history_path: &'a str, prompt: &'a str) -> (config: Config<'a>)
        ensures
            config.history_path_text() == history_path@,
            config.prompt_text() == prompt@,
    {
        Config { history_path, prompt }
    }

    pub fn history_path(&self) -> (path: &'a str)
        ensures
            path@ == self.history_path_text(),
    {
        self.history_path
    }

    pub fn prompt(&self) -> (prompt: &'a str)
        ensures
            prompt@ == self.prompt_text(),
    {
        self.prompt
    }
}

/// What a read of one line came to.
#[derive(Debug, PartialEq, Eq)]
pub enum ReadEvent {
    /// A line of text.
    Line(String),
    /// The read failed.
    Failed(Fault),
}

/// What the loop does after a read.
#[derive(Debug, PartialEq, Eq)]
pub enum Action {
    /// Remember the line in the history and run the command.
    Run(RCommand),
    /// The line is no command.
    Refuse(Error),
    /// End the loop.
    Stop,
    /// Report the fault, then end the loop.
    Report(Fault),
}

/// Decides what follows a read: a line is split into the command to run, an
/// interrupt or the end of the input ends the loop quietly, and any other
/// fault is reported before the loop ends.
pub fn next_action(event: ReadEvent) -> (action: Action)
    ensures
        match event {
            ReadEvent::Line(line) => if line@.len() == 0 {
                action is Refuse
            } else {
                action matches Action::Run(command) && command@ == command_of(line@)
            },
            ReadEvent::Failed(Fault::Interrupted) => action is Stop,
            ReadEvent::Failed(Fault::Eof) => action is Stop,
            ReadEvent::Failed(fault) => action == Action::Report(fault),
        },
{
    match event {
        ReadEvent::Line(line) => match RCommand::new(&line) {
            Ok(command) => Action::Run(command),
            Err(e) => Action::Refuse(e),
        },
        ReadEvent::Failed(Fault::Interrupted) => Action::Stop,
        ReadEvent::Failed(Fault::Eof) => Action::Stop,
        ReadEvent::Failed(fault) => Action::Report(fault),
    }
}

} // verus!
