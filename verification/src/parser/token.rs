//! The closed set of lexical categories, and the reserved-word table.
use vstd::prelude::*;
use vstd::utf8::*;

verus! {

/// One classified unit of lexical input.
#[derive(Eq, PartialEq, Debug, Clone)]
pub enum Token {
    GreaterThan,
    LessThan,
    DoubleLessThan,
    DoubleGreaterThan,
    LessThanAmp,
    GreaterThanAmp,
    Minus,
    LessLessMinus,
    LessGreater,
    GreaterPipe,
    Pipe,
    DoublePipe,
    LParen,
    RParen,
    LBrace,
    RBrace,
    SemiColon,
    DoubleSemiColon,
    LBracket,
    RBracket,
    Ampersand,
    DoubleAmpersand,
    ExclamationMark,
    If,
    Then,
    Else,
    ElIf,
    EndIf,
    For,
    Do,
    Done,
    Case,
    Esac,
    While,
    Until,
    Function,
    Select,
    Equals,
    Word(String),
    Number(String),
    StringLiteral(String),
    Variable(String),
    Illegal,
    EOF,
}

/// The mathematical value of a [`Token`]: the same categories, with the
/// payload of a value-carrying token as a sequence of characters.
pub ghost enum TokenView {
    GreaterThan,
    LessThan,
    DoubleLessThan,
    DoubleGreaterThan,
    LessThanAmp,
    GreaterThanAmp,
    Minus,
    LessLessMinus,
    LessGreater,
    GreaterPipe,
    Pipe,
    DoublePipe,
    LParen,
    RParen,
    LBrace,
    RBrace,
    SemiColon,
    DoubleSemiColon,
    LBracket,
    RBracket,
    Ampersand,
    DoubleAmpersand,
    ExclamationMark,
    If,
    Then,
    Else,
    ElIf,
    EndIf,
    For,
    Do,
    Done,
    Case,
    Esac,
    While,
    Until,
    Function,
    Select,
    Equals,
    Word(Seq<char>),
    Number(Seq<char>),
    StringLiteral(Seq<char>),
    Variable(Seq<char>),
    Illegal,
    EOF,
}

impl View for Token {
    type V = TokenView;

    open spec fn view(&self) -> TokenView {
        match self {
            Token::GreaterThan => TokenView::GreaterThan,
            Token::LessThan => TokenView::LessThan,
            Token::DoubleLessThan => TokenView::DoubleLessThan,
            Token::DoubleGreaterThan => TokenView::DoubleGreaterThan,
            Token::LessThanAmp => TokenView::LessThanAmp,
            Token::GreaterThanAmp => TokenView::GreaterThanAmp,
            Token::Minus => TokenView::Minus,
            Token::LessLessMinus => TokenView::LessLessMinus,
            Token::LessGreater => TokenView::LessGreater,
            Token::GreaterPipe => TokenView::GreaterPipe,
            Token::Pipe => TokenView::Pipe,
            Token::DoublePipe => TokenView::DoublePipe,
            Token::LParen => TokenView::LParen,
            Token::RParen => TokenView::RParen,
            Token::LBrace => TokenView::LBrace,
            Token::RBrace => TokenView::RBrace,
            Token::SemiColon => TokenView::SemiColon,
            Token::DoubleSemiColon => TokenView::DoubleSemiColon,
            Token::LBracket => TokenView::LBracket,
            Token::RBracket => TokenView::RBracket,
            Token::Ampersand => TokenView::Ampersand,
            Token::DoubleAmpersand => TokenView::DoubleAmpersand,
            Token::ExclamationMark => TokenView::ExclamationMark,
            Token::If => TokenView::If,
            Token::Then => TokenView::Then,
            Token::Else => TokenView::Else,
            Token::ElIf => TokenView::ElIf,
            Token::EndIf => TokenView::EndIf,
            Token::For => TokenView::For,
            Token::Do => TokenView::Do,
            Token::Done => TokenView::Done,
            Token::Case => TokenView::Case,
            Token::Esac => TokenView::Esac,
            Token::While => TokenView::While,
            Token::Until => TokenView::Until,
            Token::Function => TokenView::Function,
            Token::Select => TokenView::Select,
            Token::Equals => TokenView::Equals,
            Token::Illegal => TokenView::Illegal,
            Token::EOF => TokenView::EOF,
            Token::Word(text) => TokenView::Word(text@),
            Token::Number(text) => TokenView::Number(text@),
            Token::StringLiteral(text) => TokenView::StringLiteral(text@),
            Token::Variable(text) => TokenView::Variable(text@),
        }
    }
}

/// The values of a sequence of tokens.
pub open spec fn token_views(tokens: Seq<Token>) -> Seq<TokenView> {
    Seq::new(tokens.len(), |k: int| tokens[k]@)
}

/// The token that a reserved spelling stands for; `None` for every other text.
pub open spec fn keyword(text: Seq<char>) -> Option<TokenView> {
    if text == "if"@ {
        Some(TokenView::If)
    } else if text == "then"@ {
        Some(TokenView::Then)
    } else if text == "else"@ {
        Some(TokenView::Else)
    } else if text == "elif"@ {
        Some(TokenView::ElIf)
    } else if text == "fi"@ {
        Some(TokenView::EndIf)
    } else if text == "for"@ {
        Some(TokenView::For)
    } else if text == "do"@ {
        Some(TokenView::Do)
    } else if text == "done"@ {
        Some(TokenView::Done)
    } else if text == "case"@ {
        Some(TokenView::Case)
    } else if text == "esac"@ {
        Some(TokenView::Esac)
    } else if text == "while"@ {
        Some(TokenView::While)
    } else if text == "until"@ {
        Some(TokenView::Until)
    } else if text == "function"@ {
        Some(TokenView::Function)
    } else if text == "select"@ {
        Some(TokenView::Select)
    } else {
        None
    }
}

/// The spelling of a keyword token; `None` for every other token.
pub open spec fn spelling(token: TokenView) -> Option<Seq<char>> {
    match token {
        TokenView::If => Some("if"@),
        TokenView::Then => Some("then"@),
        TokenView::Else => Some("else"@),
        TokenView::ElIf => Some("elif"@),
        TokenView::EndIf => Some("fi"@),
        TokenView::For => Some("for"@),
        TokenView::Do => Some("do"@),
        TokenView::Done => Some("done"@),
        TokenView::Case => Some("case"@),
        TokenView::Esac => Some("esac"@),
        TokenView::While => Some("while"@),
        TokenView::Until => Some("until"@),
        TokenView::Function => Some("function"@),
        TokenView::Select => Some("select"@),
        _ => None,
    }
}

/// The token of an identifier-shaped lexeme: its keyword if the whole text is
/// a reserved spelling, else a word that carries the text.
pub open spec fn reserved_or_word(text: Seq<char>) -> TokenView {
    match keyword(text) {
        Some(token) => token,
        None => TokenView::Word(text),
    }
}

/// The variable that a name token is re-tagged into: a word or a number gives
/// its text, a keyword gives its spelling, and any other token is illegal.
pub open spec fn variable_of(token: TokenView) -> TokenView {
    match token {
        TokenView::Word(text) => TokenView::Variable(text),
        TokenView::Number(text) => TokenView::Variable(text),
        _ => match spelling(token) {
            Some(text) => TokenView::Variable(text),
            None => TokenView::Illegal,
        },
    }
}

/// Whether two texts hold the same characters.
pub fn same_text(a: &str, b: &str) -> (r: bool)
    ensures
        r == (a@ == b@),
{
    let x = a.as_bytes();
    let y = b.as_bytes();
    if x.len() != y.len() {
        return false;
    }
    let mut i: usize = 0;
    while i < x.len()
        invariant
            x@ == encode_utf8(a@),
            y@ == encode_utf8(b@),
            x@.len() == y@.len(),
            i <= x@.len(),
            forall|k: int| 0 <= k < i ==> x@[k] == y@[k],
        decreases x.len() - i,
    {
        if x[i] != y[i] {
            return false;
        }
        i += 1;
    }
    proof {
        assert(x@ =~= y@);
        encode_utf8_decode_utf8(a@);
        encode_utf8_decode_utf8(b@);
    }
    true
}

/// Resolves an identifier-shaped lexeme against the reserved-word table.
pub fn parse_reserved(text: String) -> (token: Token)
    ensures
        token@ == reserved_or_word(text@),
{
    if same_text(text.as_str(), "if") {
        Token::If
    } else if same_text(text.as_str(), "then") {
        Token::Then
    } else if same_text(text.as_str(), "else") {
        Token::Else
    } else if same_text(text.as_str(), "elif") {
        Token::ElIf
    } else if same_text(text.as_str(), "fi") {
        Token::EndIf
    } else if same_text(text.as_str(), "for") {
        Token::For
    } else if same_text(text.as_str(), "do") {
        Token::Do
    } else if same_text(text.as_str(), "done") {
        Token::Done
    } else if same_text(text.as_str(), "case") {
        Token::Case
    } else if same_text(text.as_str(), "esac") {
        Token::Esac
    } else if same_text(text.as_str(), "while") {
        Token::While
    } else if same_text(text.as_str(), "until") {
        Token::Until
    } else if same_text(text.as_str(), "function") {
        Token::Function
    } else if same_text(text.as_str(), "select") {
        Token::Select
    } else {
        Token::Word(text)
    }
}

/// Re-tags the token of a name as the variable of that name.
pub fn to_variable(token: Token) -> (variable: Token)
    ensures
        variable@ == variable_of(token@),
{
    match token {
        Token::Word(text) => Token::Variable(text),
        Token::Number(text) => Token::Variable(text),
        Token::If => Token::Variable(String::from_str("if")),
        Token::Then => Token::Variable(String::from_str("then")),
        Token::Else => Token::Variable(String::from_str("else")),
        Token::ElIf => Token::Variable(String::from_str("elif")),
        Token::EndIf => Token::Variable(String::from_str("fi")),
        Token::For => Token::Variable(String::from_str("for")),
        Token::Do => Token::Variable(String::from_str("do")),
        Token::Done => Token::Variable(String::from_str("done")),
        Token::Case => Token::Variable(String::from_str("case")),
        Token::Esac => Token::Variable(String::from_str("esac")),
        Token::While => Token::Variable(String::from_str("while")),
        Token::Until => Token::Variable(String::from_str("until")),
        Token::Function => Token::Variable(String::from_str("function")),
        Token::Select => Token::Variable(String::from_str("select")),
        _ => Token::Illegal,
    }
}

} // verus!
