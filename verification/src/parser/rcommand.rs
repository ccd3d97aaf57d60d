//! The command-line splitter: a line of text becomes an argument vector and a
//! background flag.
use crate::parser::token::same_text;
use vstd::prelude::*;

verus! {

/// A command: its arguments, the program first, and whether it runs in the
/// background.
#[derive(Debug, Eq, PartialEq)]
pub struct RCommand {
    pub args: Vec<String>,
    pub background: bool,
}

/// Why a line is no command.
#[derive(Debug, Eq, PartialEq)]
pub enum Error {
    /// The line is empty.
    InvalidCommand,
}

/// The mathematical value of an [`RCommand`].
pub ghost struct RCommandView {
    pub args: Seq<Seq<char>>,
    pub background: bool,
}

/// The characters of each text of a sequence.
pub open spec fn texts(items: Seq<String>) -> Seq<Seq<char>> {
    Seq::new(items.len(), |k: int| items[k]@)
}

impl View for RCommand {
    type V = RCommandView;

    open spec fn view(&self) -> RCommandView {
        RCommandView { args: texts(self.args@), background: self.background }
    }
}

/// A character with the Unicode property `White_Space`.
pub open spec fn is_space(c: char) -> bool {
    ('\u{9}' <= c && c <= '\u{d}') || c == ' ' || c == '\u{85}' || c == '\u{a0}' || c
        == '\u{1680}' || ('\u{2000}' <= c && c <= '\u{200a}') || c == '\u{2028}' || c
        == '\u{2029}' || c == '\u{202f}' || c == '\u{205f}' || c == '\u{3000}'
}

/// The end of the longest run without white space that starts at `i`.
pub open spec fn field_end(s: Seq<char>, i: int) -> int
    decreases s.len() - i,
{
    if 0 <= i < s.len() && !is_space(s[i]) {
        field_end(s, i + 1)
    } else {
        i
    }
}

/// The fields of `s` from position `i` on: its longest runs without white
/// space, in order.
pub open spec fn fields_from(s: Seq<char>, i: int) -> Seq<Seq<char>>
    decreases s.len() - i,
{
    if i < 0 || i >= s.len() {
        Seq::empty()
    } else if is_space(s[i]) {
        fields_from(s, i + 1)
    } else {
        proof {
            lemma_field_end_bounds(s, i + 1);
        }
        seq![s.subrange(i, field_end(s, i + 1))] + fields_from(s, field_end(s, i + 1))
    }
}

/// A field ends at or after its start, within the line.
pub proof fn lemma_field_end_bounds(s: Seq<char>, i: int)
    requires
        0 <= i <= s.len(),
    ensures
        i <= field_end(s, i) <= s.len(),
    decreases s.len() - i,
{
    if i < s.len() && !is_space(s[i]) {
        lemma_field_end_bounds(s, i + 1);
    }
}

/// The fields of a line.
pub open spec fn fields(s: Seq<char>) -> Seq<Seq<char>> {
    fields_from(s, 0)
}

/// Whether the last field of a line is the lone `&` that asks for background
/// execution.
pub open spec fn asks_background(s: Seq<char>) -> bool {
    fields(s).len() > 0 && fields(s).last() == "&"@
}

/// The command that a line stands for: its fields, without the trailing `&`
/// that sets the background flag.
pub open spec fn command_of(s: Seq<char>) -> RCommandView {
    if asks_background(s) {
        RCommandView { args: fields(s).drop_last(), background: true }
    } else {
        RCommandView { args: fields(s), background: false }
    }
}

/// Calls `str::split_whitespace` and owns each piece. The contract claims what
/// its documentation says: the pieces are the sub-slices of the text that
/// white space separates, in order, where white space is any amount of
/// characters with the Unicode property `White_Space`.
#[verifier::external_body]
fn split_whitespace(buffer: &str) -> (pieces: Vec<String>)
    ensures
        texts(pieces@) == fields(buffer@),
{
    buffer.split_whitespace().map(String::from).collect()
}

impl RCommand {
    /// Splits a line into a command. The empty line, and no other, is
    /// refused.
    pub fn new(buffer: &String) -> (r: Result<RCommand, Error>)
        ensures
            r is Err <==> buffer@.len() == 0,
            r matches Ok(command) ==> command@ == command_of(buffer@),
    {
        if buffer.as_str().is_empty() {
            return Err(Error::InvalidCommand);
        }
        let mut cmd_vec = split_whitespace(buffer.as_str());
        let ghost all = cmd_vec@;
        let count = cmd_vec.len();
        let background = count > 0 && same_text(cmd_vec[count - 1].as_str(), "&");
        proof {
            if count > 0 {
                assert(texts(all).last() == all[count - 1]@);
            }
        }
        if background {
            cmd_vec.pop();
            proof {
                assert(texts(cmd_vec@) =~= texts(all).drop_last());
            }
        }
        Ok(RCommand { args: cmd_vec, background })
    }
}

} // verus!
