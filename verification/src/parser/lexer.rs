//! The lexer: one matcher per lexical class, a dispatch by precedence, and the
//! loop that turns a byte buffer into tokens.
use crate::parser::grammar::{
    ascii_text, digits_end, is_digit, is_letter, is_name_byte, lemma_digits_end_bounds,
    lemma_lexeme_advances, lex, lexeme_at, name_end, number_at,
    operator_at, prepend, quoted_at, skip_blank, string_at, tokens_from, variable_at, word_at,
    LexError, Lexeme, AMP, BACKSLASH, BANG, BAR, BRACE_CLOSE, BRACE_OPEN, BRACKET_CLOSE,
    BRACKET_OPEN, CARRIAGE_RETURN, DASH, DIGIT_0, DIGIT_9, DOLLAR, EQUAL, GREATER, HASH, LESS,
    LINE_FEED, PAREN_CLOSE, PAREN_OPEN, QUOTE, SEMI, SPACE, TAB, UNDERSCORE,
};
use crate::parser::laws::lemma_tokens_end;
use crate::parser::token::{parse_reserved, to_variable, token_views, Token, TokenView};
use vstd::pervasive::unreached;
use vstd::prelude::*;
use vstd::slice::slice_subrange;
use vstd::utf8::*;

verus! {

/// `nom::is_alphabetic` tests one byte. The contract claims that it holds
/// exactly of the ASCII letters `A` to `Z` and `a` to `z`.
pub assume_specification[ nom::is_alphabetic ](chr: u8) -> (r: bool)
    ensures
        r == is_letter(chr),
;

/// Calls `nom::digit` on `bytes` taken as complete input. The contract claims
/// that it matches the longest run of ASCII decimal digits at the start of
/// the input and fails where that run is empty: the result is the run that
/// it matched, or `None` where it failed.
#[verifier::external_body]
fn digit(bytes: &[u8]) -> (run: Option<&[u8]>)
    ensures
        match run {
            Some(matched) => matched@.len() > 0 && matched@ == bytes@.subrange(
                0,
                digits_end(bytes@, 0),
            ),
            None => digits_end(bytes@, 0) == 0,
        },
{
    match nom::digit(nom::types::CompleteByteSlice(bytes)) {
        Ok((_, matched)) => Some(matched.0),
        Err(_) => None,
    }
}

/// Calls `std::str::from_utf8`. The contract claims that it succeeds exactly
/// on the valid UTF-8 encodings, and that the text it then returns holds the
/// characters that the bytes encode.
#[verifier::external_body]
fn str_from_utf8(bytes: &[u8]) -> (text: Option<&str>)
    ensures
        text is Some <==> valid_utf8(bytes@),
        text matches Some(t) ==> t@ == decode_utf8(bytes@),
{
    std::str::from_utf8(bytes).ok()
}

/// A run of ASCII bytes is valid UTF-8 and encodes one character per byte.
pub proof fn lemma_ascii_is_utf8(bytes: Seq<u8>)
    requires
        forall|k: int| 0 <= k < bytes.len() ==> bytes[k] < 128,
    ensures
        valid_utf8(bytes),
        decode_utf8(bytes) == ascii_text(bytes),
{
    let chars = ascii_text(bytes);
    assert(is_ascii_chars(chars));
    is_ascii_chars_encode_utf8(chars);
    assert(encode_utf8(chars) =~= bytes);
    encode_utf8_valid_utf8(chars);
    encode_utf8_decode_utf8(chars);
}

/// A run of digits in a suffix of the input ends where it ends in the input.
pub proof fn lemma_digits_end_suffix(s: Seq<u8>, i: int, k: int)
    requires
        0 <= i <= k <= s.len(),
    ensures
        digits_end(s.subrange(i, s.len() as int), k - i) == digits_end(s, k) - i,
    decreases s.len() - k,
{
    if k < s.len() && is_digit(s[k]) {
        lemma_digits_end_suffix(s, i, k + 1);
    }
}

/// Whether a byte may follow the first letter of an identifier.
pub fn is_alpha_or_underscore(c: u8) -> (r: bool)
    ensures
        r == is_name_byte(c),
{
    nom::is_alphabetic(c) || c == UNDERSCORE
}

/// The text of the ASCII bytes between two positions.
fn ascii_string(bytes: &[u8], from: usize, to: usize) -> (text: String)
    requires
        from <= to <= bytes@.len(),
        forall|k: int| from <= k < to ==> bytes@[k] < 128,
    ensures
        text@ == ascii_text(bytes@.subrange(from as int, to as int)),
{
    let run = slice_subrange(bytes, from, to);
    proof {
        lemma_ascii_is_utf8(run@);
    }
    match str_from_utf8(run) {
        Some(text) => text.to_owned(),
        None => unreached(),
    }
}

/// Skips blanks and comments from `from` on.
fn skip_blanks(bytes: &[u8], from: usize) -> (start: usize)
    requires
        from <= bytes@.len(),
    ensures
        start == skip_blank(bytes@, from as int, false),
        from <= start <= bytes@.len(),
{
    let mut i: usize = from;
    let mut in_comment = false;
    while i < bytes.len()
        invariant
            from <= i <= bytes@.len(),
            skip_blank(bytes@, from as int, false) == skip_blank(bytes@, i as int, in_comment),
        decreases bytes@.len() - i,
    {
        let b = bytes[i];
        if in_comment {
            in_comment = b != LINE_FEED;
        } else if b == SPACE || b == TAB || b == LINE_FEED || b == CARRIAGE_RETURN {
        } else if b == HASH {
            in_comment = true;
        } else {
            return i;
        }
        i += 1;
    }
    i
}

/// The operator at position `i`, if one stands there, with the position
/// after it.
fn operator(bytes: &[u8], i: usize) -> (r: Option<(Token, usize)>)
    requires
        i < bytes@.len(),
    ensures
        match r {
            Some((token, next)) => operator_at(bytes@, i as int) == Some((token@, next - i)) && i
                < next <= bytes@.len(),
            None => operator_at(bytes@, i as int) is None,
        },
{
    let n = bytes.len();
    let a = bytes[i];
    let second: Option<u8> = if i + 1 < n {
        Some(bytes[i + 1])
    } else {
        None
    };
    let third: Option<u8> = if i + 1 < n && i + 2 < n {
        Some(bytes[i + 2])
    } else {
        None
    };
    if a == LESS {
        match second {
            Some(b) if b == LESS => match third {
                Some(c) if c == DASH => Some((Token::LessLessMinus, i + 3)),
                _ => Some((Token::DoubleLessThan, i + 2)),
            },
            Some(b) if b == AMP => Some((Token::LessThanAmp, i + 2)),
            Some(b) if b == GREATER => Some((Token::LessGreater, i + 2)),
            _ => Some((Token::LessThan, i + 1)),
        }
    } else if a == GREATER {
        match second {
            Some(b) if b == GREATER => Some((Token::DoubleGreaterThan, i + 2)),
            Some(b) if b == AMP => Some((Token::GreaterThanAmp, i + 2)),
            Some(b) if b == BAR => Some((Token::GreaterPipe, i + 2)),
            _ => Some((Token::GreaterThan, i + 1)),
        }
    } else if a == BAR {
        match second {
            Some(b) if b == BAR => Some((Token::DoublePipe, i + 2)),
            _ => Some((Token::Pipe, i + 1)),
        }
    } else if a == SEMI {
        match second {
            Some(b) if b == SEMI => Some((Token::DoubleSemiColon, i + 2)),
            _ => Some((Token::SemiColon, i + 1)),
        }
    } else if a == AMP {
        match second {
            Some(b) if b == AMP => Some((Token::DoubleAmpersand, i + 2)),
            _ => Some((Token::Ampersand, i + 1)),
        }
    } else if a == DASH {
        Some((Token::Minus, i + 1))
    } else if a == PAREN_OPEN {
        Some((Token::LParen, i + 1))
    } else if a == PAREN_CLOSE {
        Some((Token::RParen, i + 1))
    } else if a == BRACE_OPEN {
        Some((Token::LBrace, i + 1))
    } else if a == BRACE_CLOSE {
        Some((Token::RBrace, i + 1))
    } else if a == BRACKET_OPEN {
        Some((Token::LBracket, i + 1))
    } else if a == BRACKET_CLOSE {
        Some((Token::RBracket, i + 1))
    } else if a == BANG {
        Some((Token::ExclamationMark, i + 1))
    } else if a == EQUAL {
        Some((Token::Equals, i + 1))
    } else {
        None
    }
}

/// The identifier or keyword that starts at `i`.
fn word(bytes: &[u8], i: usize) -> (r: (Token, usize))
    requires
        i < bytes@.len(),
        is_letter(bytes@[i as int]),
    ensures
        word_at(bytes@, i as int) == Lexeme::Token(r.0@, r.1 as int),
        i < r.1 <= bytes@.len(),
{
    let n = bytes.len();
    let mut end: usize = i + 1;
    while end < n && is_alpha_or_underscore(bytes[end])
        invariant
            n == bytes@.len(),
            i < end <= n,
            name_end(bytes@, i + 1) == name_end(bytes@, end as int),
            forall|k: int| i <= k < end ==> bytes@[k] < 128,
        decreases bytes@.len() - end,
    {
        end += 1;
    }
    let text = ascii_string(bytes, i, end);
    (parse_reserved(text), end)
}

/// The number that starts at `i`.
fn number(bytes: &[u8], i: usize) -> (r: (Token, usize))
    requires
        i < bytes@.len(),
        is_digit(bytes@[i as int]),
    ensures
        number_at(bytes@, i as int) == Lexeme::Token(r.0@, r.1 as int),
        i < r.1 <= bytes@.len(),
{
    let rest = slice_subrange(bytes, i, bytes.len());
    proof {
        lemma_digits_end_suffix(bytes@, i as int, i as int);
        lemma_digits_end_bounds(bytes@, i as int);
    }
    let run = match digit(rest) {
        Some(matched) => matched,
        None => unreached(),
    };
    proof {
        lemma_digits_end_bounds(rest@, 0);
    }
    let end = i + run.len();
    let text = ascii_string(bytes, i, end);
    (Token::Number(text), end)
}

/// The string literal with the given content, where the content is text.
fn parse_str(content: &[u8]) -> (literal: Option<Token>)
    ensures
        literal is Some <==> valid_utf8(content@),
        literal matches Some(token) ==> token@ == TokenView::StringLiteral(decode_utf8(content@)),
{
    match str_from_utf8(content) {
        Some(text) => Some(Token::StringLiteral(text.to_owned())),
        None => None,
    }
}

/// The string literal that opens at `i`.
fn string_literal(bytes: &[u8], i: usize) -> (r: Result<(Token, usize), LexError>)
    requires
        i < bytes@.len(),
        bytes@[i as int] == QUOTE,
    ensures
        match r {
            Ok((token, next)) => string_at(bytes@, i as int) == Lexeme::Token(token@, next as int),
            Err(_) => string_at(bytes@, i as int) == Lexeme::Unterminated,
        },
{
    let n = bytes.len();
    let mut content: Vec<u8> = Vec::new();
    let mut j: usize = i + 1;
    while j < n
        invariant
            n == bytes@.len(),
            i < j <= n,
            quoted_at(bytes@, i + 1, Seq::empty()) == quoted_at(bytes@, j as int, content@),
        decreases n - j,
    {
        let b = bytes[j];
        if b == QUOTE {
            return match parse_str(content.as_slice()) {
                Some(literal) => Ok((literal, j + 1)),
                None => Ok((Token::Illegal, i + 1)),
            };
        } else if b != BACKSLASH {
            content.push(b);
            j += 1;
        } else if j + 1 >= n {
            return Err(LexError::UnterminatedLiteral);
        } else {
            let c = bytes[j + 1];
            if c == QUOTE || c == BACKSLASH {
                content.push(c);
                j += 2;
            } else {
                return Ok((Token::Illegal, i + 1));
            }
        }
    }
    Err(LexError::UnterminatedLiteral)
}

/// The variable that starts at `i`, or the illegal `$`.
fn variable(bytes: &[u8], i: usize) -> (r: (Token, usize))
    requires
        i < bytes@.len(),
        bytes@[i as int] == DOLLAR,
    ensures
        variable_at(bytes@, i as int) == Lexeme::Token(r.0@, r.1 as int),
{
    let n = bytes.len();
    if i + 1 < n && nom::is_alphabetic(bytes[i + 1]) {
        let (name, next) = word(bytes, i + 1);
        (to_variable(name), next)
    } else if i + 1 < n && bytes[i + 1] >= DIGIT_0 && bytes[i + 1] <= DIGIT_9 {
        let (name, next) = number(bytes, i + 1);
        (to_variable(name), next)
    } else {
        (Token::Illegal, i + 1)
    }
}

/// Matches one token at position `i`, by precedence.
fn token(bytes: &[u8], i: usize) -> (r: Result<(Token, usize), LexError>)
    requires
        i < bytes@.len(),
    ensures
        match r {
            Ok((token, next)) => lexeme_at(bytes@, i as int) == Lexeme::Token(token@, next as int),
            Err(_) => lexeme_at(bytes@, i as int) == Lexeme::Unterminated,
        },
{
    match operator(bytes, i) {
        Some(found) => Ok(found),
        None => {
            let b = bytes[i];
            if nom::is_alphabetic(b) {
                Ok(word(bytes, i))
            } else if b >= DIGIT_0 && b <= DIGIT_9 {
                Ok(number(bytes, i))
            } else if b == QUOTE {
                string_literal(bytes, i)
            } else if b == DOLLAR {
                Ok(variable(bytes, i))
            } else {
                Ok((Token::Illegal, i + 1))
            }
        },
    }
}

/// The lexer. It holds no state: each call starts afresh.
pub struct Lexer;

impl Lexer {
    /// Turns `bytes` into tokens. On success every byte was consumed: the
    /// remaining input is empty and the tokens end with the one `EOF`. The
    /// call fails only where a string literal is still open at the end of
    /// the input.
    pub fn lex_tokens<'a>(bytes: &'a [u8]) -> (r: Result<(&'a [u8], Vec<Token>), LexError>)
        ensures
            match r {
                Ok((rest, tokens)) => {
                    &&& lex(bytes@) == Ok::<Seq<TokenView>, LexError>(token_views(tokens@))
                    &&& rest@.len() == 0
                    &&& tokens@.len() >= 1
                    &&& tokens@.last()@ == TokenView::EOF
                    &&& forall|k: int| 0 <= k < tokens@.len() - 1 ==> tokens@[k]@ != TokenView::EOF
                },
                Err(e) => lex(bytes@) == Err::<Seq<TokenView>, LexError>(e),
            },
    {
        let n = bytes.len();
        let mut tokens: Vec<Token> = Vec::new();
        let mut i: usize = 0;
        proof {
            let all = tokens_from(bytes@, 0);
            if all is Ok {
                assert(token_views(tokens@) + all->Ok_0 =~= all->Ok_0);
            }
        }
        loop
            invariant
                n == bytes@.len(),
                i <= n,
                lex(bytes@) == prepend(token_views(tokens@), tokens_from(bytes@, i as int)),
            decreases n - i,
        {
            let start = skip_blanks(bytes, i);
            if start >= n {
                let ghost before = token_views(tokens@);
                tokens.push(Token::EOF);
                proof {
                    assert(token_views(tokens@) =~= before + seq![TokenView::EOF]);
                    lemma_tokens_end(bytes@, 0);
                    assert forall|k: int| 0 <= k < tokens@.len() - 1 implies tokens@[k]@
                        != TokenView::EOF by {
                        assert(token_views(tokens@)[k] == tokens@[k]@);
                    }
                }
                return Ok((slice_subrange(bytes, n, n), tokens));
            }
            match token(bytes, start) {
                Ok((token, next)) => {
                    let ghost before = token_views(tokens@);
                    let ghost rest = tokens_from(bytes@, next as int);
                    proof {
                        lemma_lexeme_advances(bytes@, start as int);
                    }
                    tokens.push(token);
                    proof {
                        assert(token_views(tokens@) =~= before + seq![token@]);
                        if rest is Ok {
                            assert(before + (seq![token@] + rest->Ok_0) =~= (before + seq![
                                token@,
                            ]) + rest->Ok_0);
                        }
                    }
                    i = next;
                },
                Err(e) => {
                    return Err(e);
                },
            }
        }
    }
}

} // verus!
