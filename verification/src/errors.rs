//! The failures that end a shell session, and how the faults of its outside
//! collaborators map to them.
use vstd::prelude::*;

verus! {

/// Why a session ended in failure.
#[derive(Debug, Clone, Copy, PartialEq, Eq, Structural)]
pub enum Failures {
    /// A system call or the terminal failed.
    SysError,
    /// The input ended.
    EOF,
}

/// The ways in which reading a line or calling the system fails.
#[derive(Debug, Clone, Copy, PartialEq, Eq, Structural)]
pub enum Fault {
    /// An I/O error.
    Io,
    /// The end of the input.
    Eof,
    /// An interrupt from the keyboard.
    Interrupted,
    /// An error number from a system call.
    Errno,
    /// A signal that arrived while reading.
    Signal,
}

/// The failure that a fault stands for: the end of the input is `EOF`, every
/// other fault is a system error.
pub open spec fn failure_of(fault: Fault) -> Failures {
    if fault == Fault::Eof {
        Failures::EOF
    } else {
        Failures::SysError
    }
}

impl Failures {
    /// The words that stand for the failure.
    pub open spec fn message_text(self) -> Seq<char> {
        match self {
            Failures::SysError => "SysError"@,
            Failures::EOF => "EOF"@,
        }
    }

    /// The failure in words.
    pub fn message(&self) -> (text: String)
        ensures
            text@ == self.message_text(),
    {
        match self {
            Failures::SysError => String::from_str("SysError"),
            Failures::EOF => String::from_str("EOF"),
        }
    }
}

impl vstd::std_specs::convert::FromSpecImpl<Fault> for Failures {
    open spec fn obeys_from_spec() -> bool {
        true
    }

    open spec fn from_spec(fault: Fault) -> Failures {
        failure_of(fault)
    }
}

impl From<Fault> for Failures {
    fn from(fault: Fault) -> (failure: Failures)
        ensures
            failure == failure_of(fault),
    {
        match fault {
            Fault::Io => Failures::SysError,
            Fault::Eof => Failures::EOF,
            Fault::Interrupted => Failures::SysError,
            Fault::Errno => Failures::SysError,
            Fault::Signal => Failures::SysError,
        }
    }
}

} // verus!
