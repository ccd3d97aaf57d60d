//! The token grammar, as functions from a byte sequence and a position.
//!
//! At each position the lexer first skips blanks and comments, then matches
//! one token by a fixed precedence: the operator table (longer spellings
//! first), an identifier or keyword, a number, a string literal, a variable,
//! and last the one-byte illegal token.
use crate::parser::token::{reserved_or_word, variable_of, TokenView};
use vstd::prelude::*;
use vstd::utf8::*;

verus! {

// The bytes that the grammar names, by their ASCII codes.
pub const SPACE: u8 = 0x20;
pub const TAB: u8 = 0x09;
pub const LINE_FEED: u8 = 0x0a;
pub const CARRIAGE_RETURN: u8 = 0x0d;
pub const UPPER_A: u8 = 0x41;
pub const UPPER_Z: u8 = 0x5a;
pub const LOWER_A: u8 = 0x61;
pub const LOWER_Z: u8 = 0x7a;
pub const UNDERSCORE: u8 = 0x5f;
pub const DIGIT_0: u8 = 0x30;
pub const DIGIT_9: u8 = 0x39;
pub const HASH: u8 = 0x23;
pub const LESS: u8 = 0x3c;
pub const GREATER: u8 = 0x3e;
pub const DASH: u8 = 0x2d;
pub const AMP: u8 = 0x26;
pub const BAR: u8 = 0x7c;
pub const SEMI: u8 = 0x3b;
pub const PAREN_OPEN: u8 = 0x28;
pub const PAREN_CLOSE: u8 = 0x29;
pub const BRACE_OPEN: u8 = 0x7b;
pub const BRACE_CLOSE: u8 = 0x7d;
pub const BRACKET_OPEN: u8 = 0x5b;
pub const BRACKET_CLOSE: u8 = 0x5d;
pub const BANG: u8 = 0x21;
pub const EQUAL: u8 = 0x3d;
pub const QUOTE: u8 = 0x22;
pub const BACKSLASH: u8 = 0x5c;
pub const DOLLAR: u8 = 0x24;

/// The one way in which lexing fails.
#[derive(Debug, Clone, Copy, PartialEq, Eq, Structural)]
pub enum LexError {
    /// A string literal was opened and the input ended before it was closed.
    UnterminatedLiteral,
}

/// Space, tab, line feed or carriage return.
pub open spec fn is_blank(b: u8) -> bool {
    b == SPACE || b == TAB || b == LINE_FEED || b == CARRIAGE_RETURN
}

/// An ASCII letter.
pub open spec fn is_letter(b: u8) -> bool {
    (UPPER_A <= b && b <= UPPER_Z) || (LOWER_A <= b && b <= LOWER_Z)
}

/// A byte that may follow the first letter of an identifier.
pub open spec fn is_name_byte(b: u8) -> bool {
    is_letter(b) || b == UNDERSCORE
}

/// An ASCII decimal digit.
pub open spec fn is_digit(b: u8) -> bool {
    DIGIT_0 <= b && b <= DIGIT_9
}

/// Whether byte `b` stands at position `i` of `s`.
pub open spec fn has(s: Seq<u8>, i: int, b: u8) -> bool {
    0 <= i < s.len() && s[i] == b
}

/// The text of a run of ASCII bytes.
pub open spec fn ascii_text(bytes: Seq<u8>) -> Seq<char> {
    Seq::new(bytes.len(), |k: int| bytes[k] as char)
}

/// The first position at or after `i` that is neither blank nor inside a
/// comment. A comment runs from `#` to the end of its line; `in_comment`
/// says whether position `i` lies inside one.
pub open spec fn skip_blank(s: Seq<u8>, i: int, in_comment: bool) -> int
    decreases s.len() - i,
{
    if i < 0 || i >= s.len() {
        i
    } else if in_comment {
        skip_blank(s, i + 1, s[i] != LINE_FEED)
    } else if is_blank(s[i]) {
        skip_blank(s, i + 1, false)
    } else if s[i] == HASH {
        skip_blank(s, i + 1, true)
    } else {
        i
    }
}

/// The end of the longest run of identifier bytes that starts at `i`.
pub open spec fn name_end(s: Seq<u8>, i: int) -> int
    decreases s.len() - i,
{
    if 0 <= i < s.len() && is_name_byte(s[i]) {
        name_end(s, i + 1)
    } else {
        i
    }
}

/// The end of the longest run of digits that starts at `i`.
pub open spec fn digits_end(s: Seq<u8>, i: int) -> int
    decreases s.len() - i,
{
    if 0 <= i < s.len() && is_digit(s[i]) {
        digits_end(s, i + 1)
    } else {
        i
    }
}

/// The spelling of an operator token; `None` for every other token.
pub open spec fn operator_spelling(token: TokenView) -> Option<Seq<u8>> {
    match token {
        TokenView::LessLessMinus => Some(seq![LESS, LESS, DASH]),
        TokenView::DoubleLessThan => Some(seq![LESS, LESS]),
        TokenView::LessThanAmp => Some(seq![LESS, AMP]),
        TokenView::LessGreater => Some(seq![LESS, GREATER]),
        TokenView::LessThan => Some(seq![LESS]),
        TokenView::DoubleGreaterThan => Some(seq![GREATER, GREATER]),
        TokenView::GreaterThanAmp => Some(seq![GREATER, AMP]),
        TokenView::GreaterPipe => Some(seq![GREATER, BAR]),
        TokenView::GreaterThan => Some(seq![GREATER]),
        TokenView::DoublePipe => Some(seq![BAR, BAR]),
        TokenView::Pipe => Some(seq![BAR]),
        TokenView::DoubleSemiColon => Some(seq![SEMI, SEMI]),
        TokenView::SemiColon => Some(seq![SEMI]),
        TokenView::DoubleAmpersand => Some(seq![AMP, AMP]),
        TokenView::Ampersand => Some(seq![AMP]),
        TokenView::Minus => Some(seq![DASH]),
        TokenView::LParen => Some(seq![PAREN_OPEN]),
        TokenView::RParen => Some(seq![PAREN_CLOSE]),
        TokenView::LBrace => Some(seq![BRACE_OPEN]),
        TokenView::RBrace => Some(seq![BRACE_CLOSE]),
        TokenView::LBracket => Some(seq![BRACKET_OPEN]),
        TokenView::RBracket => Some(seq![BRACKET_CLOSE]),
        TokenView::ExclamationMark => Some(seq![BANG]),
        TokenView::Equals => Some(seq![EQUAL]),
        _ => None,
    }
}

/// Whether the spelling `p`, of one to three bytes, stands at position `i`.
pub open spec fn stands_at(s: Seq<u8>, i: int, p: Seq<u8>) -> bool {
    &&& 1 <= p.len() <= 3
    &&& has(s, i, p[0])
    &&& p.len() >= 2 ==> has(s, i + 1, p[1])
    &&& p.len() >= 3 ==> has(s, i + 2, p[2])
}

/// The operator table in order of precedence: the operator whose spelling
/// stands at position `i`, with the length of that spelling. A longer
/// spelling comes before each of its prefixes.
pub open spec fn operator_at(s: Seq<u8>, i: int) -> Option<(TokenView, int)> {
    if has(s, i, LESS) && has(s, i + 1, LESS) && has(s, i + 2, DASH) {
        Some((TokenView::LessLessMinus, 3))
    } else if has(s, i, LESS) && has(s, i + 1, LESS) {
        Some((TokenView::DoubleLessThan, 2))
    } else if has(s, i, LESS) && has(s, i + 1, AMP) {
        Some((TokenView::LessThanAmp, 2))
    } else if has(s, i, LESS) && has(s, i + 1, GREATER) {
        Some((TokenView::LessGreater, 2))
    } else if has(s, i, LESS) {
        Some((TokenView::LessThan, 1))
    } else if has(s, i, GREATER) && has(s, i + 1, GREATER) {
        Some((TokenView::DoubleGreaterThan, 2))
    } else if has(s, i, GREATER) && has(s, i + 1, AMP) {
        Some((TokenView::GreaterThanAmp, 2))
    } else if has(s, i, GREATER) && has(s, i + 1, BAR) {
        Some((TokenView::GreaterPipe, 2))
    } else if has(s, i, GREATER) {
        Some((TokenView::GreaterThan, 1))
    } else if has(s, i, BAR) && has(s, i + 1, BAR) {
        Some((TokenView::DoublePipe, 2))
    } else if has(s, i, BAR) {
        Some((TokenView::Pipe, 1))
    } else if has(s, i, SEMI) && has(s, i + 1, SEMI) {
        Some((TokenView::DoubleSemiColon, 2))
    } else if has(s, i, SEMI) {
        Some((TokenView::SemiColon, 1))
    } else if has(s, i, AMP) && has(s, i + 1, AMP) {
        Some((TokenView::DoubleAmpersand, 2))
    } else if has(s, i, AMP) {
        Some((TokenView::Ampersand, 1))
    } else if has(s, i, DASH) {
        Some((TokenView::Minus, 1))
    } else if has(s, i, PAREN_OPEN) {
        Some((TokenView::LParen, 1))
    } else if has(s, i, PAREN_CLOSE) {
        Some((TokenView::RParen, 1))
    } else if has(s, i, BRACE_OPEN) {
        Some((TokenView::LBrace, 1))
    } else if has(s, i, BRACE_CLOSE) {
        Some((TokenView::RBrace, 1))
    } else if has(s, i, BRACKET_OPEN) {
        Some((TokenView::LBracket, 1))
    } else if has(s, i, BRACKET_CLOSE) {
        Some((TokenView::RBracket, 1))
    } else if has(s, i, BANG) {
        Some((TokenView::ExclamationMark, 1))
    } else if has(s, i, EQUAL) {
        Some((TokenView::Equals, 1))
    } else {
        None
    }
}

/// What the scan of a string literal's inside comes to.
pub ghost enum Quoted {
    /// The closing quote was found: the content with its escapes resolved,
    /// and the position after the closing quote.
    Closed(Seq<u8>, int),
    /// A backslash stands before a byte that is neither a quote nor a
    /// backslash.
    Malformed,
    /// The input ended before a closing quote.
    Open,
}

/// Scans the inside of a string literal from position `i`, with `content`
/// gathered so far. A backslash takes the quote or backslash after it into
/// the content; every other byte but the closing quote stands for itself.
pub open spec fn quoted_at(s: Seq<u8>, i: int, content: Seq<u8>) -> Quoted
    decreases s.len() - i,
{
    if i < 0 || i >= s.len() {
        Quoted::Open
    } else if s[i] == QUOTE {
        Quoted::Closed(content, i + 1)
    } else if s[i] != BACKSLASH {
        quoted_at(s, i + 1, content.push(s[i]))
    } else if i + 1 >= s.len() {
        Quoted::Open
    } else if s[i + 1] == QUOTE || s[i + 1] == BACKSLASH {
        quoted_at(s, i + 2, content.push(s[i + 1]))
    } else {
        Quoted::Malformed
    }
}

/// What one match at a position comes to.
pub ghost enum Lexeme {
    /// A token, and the position after its lexeme.
    Token(TokenView, int),
    /// A string literal that the input leaves open.
    Unterminated,
}

/// The identifier or keyword whose lexeme starts at `i`, where a letter stands.
pub open spec fn word_at(s: Seq<u8>, i: int) -> Lexeme {
    let end = name_end(s, i + 1);
    Lexeme::Token(reserved_or_word(ascii_text(s.subrange(i, end))), end)
}

/// The number whose lexeme starts at `i`, where a digit stands.
pub open spec fn number_at(s: Seq<u8>, i: int) -> Lexeme {
    let end = digits_end(s, i + 1);
    Lexeme::Token(TokenView::Number(ascii_text(s.subrange(i, end))), end)
}

/// The string literal that opens at `i`, where a quote stands. A literal
/// that is closed but malformed, or whose content is no valid UTF-8, is no
/// literal: the quote alone is then an illegal byte.
pub open spec fn string_at(s: Seq<u8>, i: int) -> Lexeme {
    match quoted_at(s, i + 1, Seq::empty()) {
        Quoted::Closed(content, next) => if valid_utf8(content) {
            Lexeme::Token(TokenView::StringLiteral(decode_utf8(content)), next)
        } else {
            Lexeme::Token(TokenView::Illegal, i + 1)
        },
        Quoted::Malformed => Lexeme::Token(TokenView::Illegal, i + 1),
        Quoted::Open => Lexeme::Unterminated,
    }
}

/// The variable whose lexeme starts at `i`, where a `$` stands: the name that
/// follows it, an identifier or a run of digits, re-tagged. Without a name
/// the `$` alone is an illegal byte.
pub open spec fn variable_at(s: Seq<u8>, i: int) -> Lexeme {
    if i + 1 < s.len() && is_letter(s[i + 1]) {
        match word_at(s, i + 1) {
            Lexeme::Token(name, next) => Lexeme::Token(variable_of(name), next),
            Lexeme::Unterminated => Lexeme::Unterminated,
        }
    } else if i + 1 < s.len() && is_digit(s[i + 1]) {
        match number_at(s, i + 1) {
            Lexeme::Token(name, next) => Lexeme::Token(variable_of(name), next),
            Lexeme::Unterminated => Lexeme::Unterminated,
        }
    } else {
        Lexeme::Token(TokenView::Illegal, i + 1)
    }
}

/// The match at position `i`, by precedence.
pub open spec fn lexeme_at(s: Seq<u8>, i: int) -> Lexeme
    recommends
        0 <= i < s.len(),
{
    match operator_at(s, i) {
        Some((token, len)) => Lexeme::Token(token, i + len),
        None => if is_letter(s[i]) {
            word_at(s, i)
        } else if is_digit(s[i]) {
            number_at(s, i)
        } else if s[i] == QUOTE {
            string_at(s, i)
        } else if s[i] == DOLLAR {
            variable_at(s, i)
        } else {
            Lexeme::Token(TokenView::Illegal, i + 1)
        },
    }
}

/// `tokens` in front of what a lexing of the rest came to.
pub open spec fn prepend(
    tokens: Seq<TokenView>,
    rest: Result<Seq<TokenView>, LexError>,
) -> Result<Seq<TokenView>, LexError> {
    match rest {
        Ok(more) => Ok(tokens + more),
        Err(e) => Err(e),
    }
}

/// The tokens from position `i` to the end of the input, closed by `EOF`.
pub open spec fn tokens_from(s: Seq<u8>, i: int) -> Result<Seq<TokenView>, LexError>
    decreases s.len() - i,
{
    let start = skip_blank(s, i, false);
    if i < 0 || start >= s.len() {
        Ok(seq![TokenView::EOF])
    } else {
        match lexeme_at(s, start) {
            Lexeme::Token(token, next) => {
                proof {
                    lemma_skip_blank_bounds(s, i, false);
                    lemma_lexeme_advances(s, start);
                }
                prepend(seq![token], tokens_from(s, next))
            },
            Lexeme::Unterminated => Err(LexError::UnterminatedLiteral),
        }
    }
}

/// The tokens of a whole input.
pub open spec fn lex(s: Seq<u8>) -> Result<Seq<TokenView>, LexError> {
    tokens_from(s, 0)
}

/// Skipping never moves backwards nor past the end, and stops only at the end
/// or at a byte that starts a token.
pub proof fn lemma_skip_blank_bounds(s: Seq<u8>, i: int, in_comment: bool)
    requires
        0 <= i <= s.len(),
    ensures
        i <= skip_blank(s, i, in_comment) <= s.len(),
        skip_blank(s, i, in_comment) < s.len() ==> {
            &&& !is_blank(s[skip_blank(s, i, in_comment)])
            &&& s[skip_blank(s, i, in_comment)] != HASH
        },
    decreases s.len() - i,
{
    if i < s.len() {
        if in_comment {
            lemma_skip_blank_bounds(s, i + 1, s[i] != LINE_FEED);
        } else if is_blank(s[i]) {
            lemma_skip_blank_bounds(s, i + 1, false);
        } else if s[i] == HASH {
            lemma_skip_blank_bounds(s, i + 1, true);
        }
    }
}

/// A run of identifier bytes ends at or after its start, within the input.
pub proof fn lemma_name_end_bounds(s: Seq<u8>, i: int)
    requires
        0 <= i <= s.len(),
    ensures
        i <= name_end(s, i) <= s.len(),
        forall|k: int| i <= k < name_end(s, i) ==> is_name_byte(#[trigger] s[k]),
        name_end(s, i) < s.len() ==> !is_name_byte(s[name_end(s, i)]),
    decreases s.len() - i,
{
    if i < s.len() && is_name_byte(s[i]) {
        lemma_name_end_bounds(s, i + 1);
    }
}

/// A run of digits ends at or after its start, within the input.
pub proof fn lemma_digits_end_bounds(s: Seq<u8>, i: int)
    requires
        0 <= i <= s.len(),
    ensures
        i <= digits_end(s, i) <= s.len(),
        forall|k: int| i <= k < digits_end(s, i) ==> is_digit(#[trigger] s[k]),
        digits_end(s, i) < s.len() ==> !is_digit(s[digits_end(s, i)]),
    decreases s.len() - i,
{
    if i < s.len() && is_digit(s[i]) {
        lemma_digits_end_bounds(s, i + 1);
    }
}

/// A closed literal ends after the position where its scan began.
pub proof fn lemma_quoted_bounds(s: Seq<u8>, i: int, content: Seq<u8>)
    requires
        0 <= i <= s.len(),
    ensures
        match quoted_at(s, i, content) {
            Quoted::Closed(_, next) => i < next <= s.len(),
            _ => true,
        },
    decreases s.len() - i,
{
    if i < s.len() && s[i] != QUOTE {
        if s[i] != BACKSLASH {
            lemma_quoted_bounds(s, i + 1, content.push(s[i]));
        } else if i + 1 < s.len() && (s[i + 1] == QUOTE || s[i + 1] == BACKSLASH) {
            lemma_quoted_bounds(s, i + 2, content.push(s[i + 1]));
        }
    }
}

/// Every match consumes at least one byte and stays within the input, and
/// no match yields `EOF`.
pub proof fn lemma_lexeme_advances(s: Seq<u8>, i: int)
    requires
        0 <= i < s.len(),
    ensures
        match lexeme_at(s, i) {
            Lexeme::Token(token, next) => {
                &&& i < next <= s.len()
                &&& token != TokenView::EOF
                &&& token == TokenView::Illegal ==> next == i + 1
            },
            Lexeme::Unterminated => true,
        },
{
    lemma_name_end_bounds(s, i + 1);
    lemma_digits_end_bounds(s, i + 1);
    lemma_quoted_bounds(s, i + 1, Seq::empty());
    if i + 1 < s.len() {
        lemma_name_end_bounds(s, i + 2);
        lemma_digits_end_bounds(s, i + 2);
    }
}

} // verus!
