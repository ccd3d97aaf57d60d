use rshell::parser::lexer::is_alpha_or_underscore;
use rshell::parser::token::{parse_reserved, same_text, to_variable};
use rshell::parser::{LexError, Lexer, Token};

fn lex(input: &[u8]) -> Vec<Token> {
    let (_, tokens) = Lexer::lex_tokens(input).unwrap();
    tokens
}

fn word(text: &str) -> Token {
    Token::Word(text.to_owned())
}

fn number(text: &str) -> Token {
    Token::Number(text.to_owned())
}

#[test]
fn test_word() {
    let (_, result) = Lexer::lex_tokens(&b"ab_cd ab_ abcd a"[..]).unwrap();

    let expected = vec![
        Token::Word("ab_cd".to_owned()),
        Token::Word("ab_".to_owned()),
        Token::Word("abcd".to_owned()),
        Token::Word("a".to_owned()),
        Token::EOF,
    ];

    assert_eq!(result, expected);
}

#[test]
fn test_number() {
    let (_, result) = Lexer::lex_tokens(&b"123 0"[..]).unwrap();

    let expected = vec![
        Token::Number("123".to_owned()),
        Token::Number("0".to_owned()),
        Token::EOF,
    ];

    assert_eq!(result, expected);
}

#[test]
fn test_comment() {
    let (_, result) = Lexer::lex_tokens(&b"#asdasd\n123 0"[..]).unwrap();

    let expected = vec![
        Token::Number("123".to_owned()),
        Token::Number("0".to_owned()),
        Token::EOF,
    ];

    assert_eq!(result, expected);
}

#[test]
fn test_simple_tokens() {
    let (_, result) = Lexer::lex_tokens(&b"> <"[..]).unwrap();

    let expected = vec![Token::GreaterThan, Token::LessThan, Token::EOF];

    assert_eq!(result, expected);
}

#[test]
fn test_assign_example() {
    let r = "STRING=\"HELLO WORLD!!!\" echo $STRING $0";

    let (_, result) = Lexer::lex_tokens(&r.as_bytes()).unwrap();

    let expected = vec![
        Token::Word(String::from("STRING")),
        Token::Equals,
        Token::StringLiteral(String::from("HELLO WORLD!!!")),
        Token::Word(String::from("echo")),
        Token::Variable(String::from("STRING")),
        Token::Variable(String::from("0")),
        Token::EOF,
    ];

    assert_eq!(result, expected);
}

#[test]
fn comment_line_yields_no_tokens() {
    assert_eq!(lex(b"#comment\n123 0"), vec![number("123"), number("0"), Token::EOF]);
    assert_eq!(lex(b"a # b c"), vec![word("a"), Token::EOF]);
    assert_eq!(lex(b"a#b\nc"), vec![word("a"), word("c"), Token::EOF]);
    assert_eq!(lex(b"#"), vec![Token::EOF]);
}

#[test]
fn empty_and_blank_input_is_just_eof() {
    assert_eq!(lex(b""), vec![Token::EOF]);
    assert_eq!(lex(b" \t\r\n  "), vec![Token::EOF]);
}

#[test]
fn success_leaves_no_input() {
    let (rest, _) = Lexer::lex_tokens(b"echo hi > out").unwrap();
    assert!(rest.is_empty());
}

#[test]
fn every_keyword_lexes_to_its_token() {
    assert_eq!(lex(b"if"), vec![Token::If, Token::EOF]);
    assert_eq!(lex(b"then"), vec![Token::Then, Token::EOF]);
    assert_eq!(lex(b"else"), vec![Token::Else, Token::EOF]);
    assert_eq!(lex(b"elif"), vec![Token::ElIf, Token::EOF]);
    assert_eq!(lex(b"fi"), vec![Token::EndIf, Token::EOF]);
    assert_eq!(lex(b"for"), vec![Token::For, Token::EOF]);
    assert_eq!(lex(b"do"), vec![Token::Do, Token::EOF]);
    assert_eq!(lex(b"done"), vec![Token::Done, Token::EOF]);
    assert_eq!(lex(b"case"), vec![Token::Case, Token::EOF]);
    assert_eq!(lex(b"esac"), vec![Token::Esac, Token::EOF]);
    assert_eq!(lex(b"while"), vec![Token::While, Token::EOF]);
    assert_eq!(lex(b"until"), vec![Token::Until, Token::EOF]);
    assert_eq!(lex(b"function"), vec![Token::Function, Token::EOF]);
    assert_eq!(lex(b"select"), vec![Token::Select, Token::EOF]);
}

#[test]
fn near_keywords_are_words() {
    assert_eq!(lex(b"iff"), vec![word("iff"), Token::EOF]);
    assert_eq!(lex(b"i"), vec![word("i"), Token::EOF]);
    assert_eq!(lex(b"If"), vec![word("If"), Token::EOF]);
    assert_eq!(lex(b"done_"), vec![word("done_"), Token::EOF]);
    assert_eq!(lex(b"fi9"), vec![Token::EndIf, number("9"), Token::EOF]);
}

#[test]
fn longer_operator_wins() {
    assert_eq!(lex(b"<<-"), vec![Token::LessLessMinus, Token::EOF]);
    assert_eq!(lex(b"<<"), vec![Token::DoubleLessThan, Token::EOF]);
    assert_eq!(lex(b"<< -"), vec![Token::DoubleLessThan, Token::Minus, Token::EOF]);
    assert_eq!(lex(b"<<<"), vec![Token::DoubleLessThan, Token::LessThan, Token::EOF]);
    assert_eq!(lex(b">>"), vec![Token::DoubleGreaterThan, Token::EOF]);
    assert_eq!(lex(b"<&"), vec![Token::LessThanAmp, Token::EOF]);
    assert_eq!(lex(b">&"), vec![Token::GreaterThanAmp, Token::EOF]);
    assert_eq!(lex(b"<>"), vec![Token::LessGreater, Token::EOF]);
    assert_eq!(lex(b">|"), vec![Token::GreaterPipe, Token::EOF]);
    assert_eq!(lex(b"||"), vec![Token::DoublePipe, Token::EOF]);
    assert_eq!(lex(b"|||"), vec![Token::DoublePipe, Token::Pipe, Token::EOF]);
    assert_eq!(lex(b";;"), vec![Token::DoubleSemiColon, Token::EOF]);
    assert_eq!(lex(b"&&"), vec![Token::DoubleAmpersand, Token::EOF]);
}

#[test]
fn single_operators() {
    let expected = vec![
        Token::Pipe,
        Token::SemiColon,
        Token::LParen,
        Token::RParen,
        Token::LBrace,
        Token::RBrace,
        Token::LBracket,
        Token::RBracket,
        Token::Ampersand,
        Token::ExclamationMark,
        Token::Equals,
        Token::Minus,
        Token::GreaterThan,
        Token::LessThan,
        Token::EOF,
    ];
    assert_eq!(lex(b"| ; ( ) { } [ ] & ! = - > <"), expected);
    assert_eq!(lex(b"(){}"), vec![Token::LParen, Token::RParen, Token::LBrace, Token::RBrace, Token::EOF]);
}

#[test]
fn illegal_bytes_are_tokens_and_lexing_goes_on() {
    let expected = vec![
        Token::If,
        Token::LBracket,
        Token::Illegal,
        Token::Illegal,
        Token::Minus,
        word("lt"),
        number("1"),
        Token::RBracket,
        Token::EOF,
    ];
    assert_eq!(lex(b"if [ $? -lt 1 ]"), expected);
    assert_eq!(lex(b"@@@"), vec![Token::Illegal, Token::Illegal, Token::Illegal, Token::EOF]);
    assert_eq!(lex(b"a_"), vec![word("a_"), Token::EOF]);
    assert_eq!(lex(b"_a"), vec![Token::Illegal, word("a"), Token::EOF]);
    assert_eq!(lex(&[0xff, 0x00, 0x61]), vec![Token::Illegal, Token::Illegal, word("a"), Token::EOF]);
}

#[test]
fn blanks_only_separate() {
    let spread = lex(b"a   b\tc\nd");
    let tight = lex(b"a b c d");
    assert_eq!(spread, tight);
    assert_eq!(tight, vec![word("a"), word("b"), word("c"), word("d"), Token::EOF]);
    assert_eq!(lex(b"\r\n a\r\n"), vec![word("a"), Token::EOF]);
}

#[test]
fn numbers_take_the_longest_run() {
    assert_eq!(lex(b"123abc"), vec![number("123"), word("abc"), Token::EOF]);
    assert_eq!(lex(b"007"), vec![number("007"), Token::EOF]);
    assert_eq!(
        lex(b"99999999999999999999999999"),
        vec![number("99999999999999999999999999"), Token::EOF]
    );
    assert_eq!(lex(b"1-2"), vec![number("1"), Token::Minus, number("2"), Token::EOF]);
}

#[test]
fn string_literals_resolve_escapes() {
    assert_eq!(
        lex(b"\"a\\\"b\\\\c\""),
        vec![Token::StringLiteral("a\"b\\c".to_owned()), Token::EOF]
    );
    assert_eq!(lex(b"\"\""), vec![Token::StringLiteral(String::new()), Token::EOF]);
    assert_eq!(
        lex(b"\"# not a comment\" x"),
        vec![Token::StringLiteral("# not a comment".to_owned()), word("x"), Token::EOF]
    );
    assert_eq!(
        lex("\"h\u{e9}llo \u{4e16}\u{754c}\"".as_bytes()),
        vec![Token::StringLiteral("h\u{e9}llo \u{4e16}\u{754c}".to_owned()), Token::EOF]
    );
}

#[test]
fn open_literal_fails_the_call() {
    assert_eq!(Lexer::lex_tokens(b"\"abc"), Err(LexError::UnterminatedLiteral));
    assert_eq!(Lexer::lex_tokens(b"echo \"abc\\\""), Err(LexError::UnterminatedLiteral));
    assert_eq!(Lexer::lex_tokens(b"\"abc\\"), Err(LexError::UnterminatedLiteral));
    assert_eq!(Lexer::lex_tokens(b"\""), Err(LexError::UnterminatedLiteral));
    assert_eq!(Lexer::lex_tokens(b"a \"b\" \"c"), Err(LexError::UnterminatedLiteral));
}

#[test]
fn malformed_literal_gives_an_illegal_quote() {
    let expected = vec![
        Token::Illegal,
        word("a"),
        Token::Illegal,
        word("n"),
        Token::StringLiteral(" x".to_owned()),
        Token::EOF,
    ];
    assert_eq!(lex(b"\"a\\n\" x\""), expected);
    let undecodable = vec![
        Token::Illegal,
        Token::Illegal,
        Token::StringLiteral(" ".to_owned()),
        Token::EOF,
    ];
    assert_eq!(lex(&[0x22, 0xff, 0x22, 0x20, 0x22]), undecodable);
}

#[test]
fn variables() {
    assert_eq!(lex(b"$HOME"), vec![Token::Variable("HOME".to_owned()), Token::EOF]);
    assert_eq!(lex(b"$if"), vec![Token::Variable("if".to_owned()), Token::EOF]);
    assert_eq!(lex(b"$a_b-c"), vec![Token::Variable("a_b".to_owned()), Token::Minus, word("c"), Token::EOF]);
    assert_eq!(lex(b"$12ab"), vec![Token::Variable("12".to_owned()), word("ab"), Token::EOF]);
    assert_eq!(lex(b"$"), vec![Token::Illegal, Token::EOF]);
    assert_eq!(lex(b"$ x"), vec![Token::Illegal, word("x"), Token::EOF]);
    assert_eq!(lex(b"$$x"), vec![Token::Illegal, Token::Variable("x".to_owned()), Token::EOF]);
}

#[test]
fn lexing_twice_gives_the_same_tokens() {
    let input = b"for f in $FILES; do echo \"$f\" >> log; done # tail";
    assert_eq!(Lexer::lex_tokens(input), Lexer::lex_tokens(input));
    let open = b"echo \"abc";
    assert_eq!(Lexer::lex_tokens(open), Lexer::lex_tokens(open));
}

#[test]
fn exactly_one_eof_and_it_is_last() {
    let tokens = lex(b"if [ $x ] ; then echo \"EOF\" EOF ; fi @");
    assert_eq!(tokens.last(), Some(&Token::EOF));
    assert_eq!(tokens.iter().filter(|t| **t == Token::EOF).count(), 1);
}

#[test]
fn reserved_words_resolve_by_whole_text() {
    assert_eq!(parse_reserved("while".to_owned()), Token::While);
    assert_eq!(parse_reserved("whil".to_owned()), word("whil"));
    assert_eq!(parse_reserved("whiles".to_owned()), word("whiles"));
    assert_eq!(parse_reserved("select".to_owned()), Token::Select);
    assert_eq!(parse_reserved("function".to_owned()), Token::Function);
}

#[test]
fn names_become_variables() {
    assert_eq!(to_variable(word("x")), Token::Variable("x".to_owned()));
    assert_eq!(to_variable(number("7")), Token::Variable("7".to_owned()));
    assert_eq!(to_variable(Token::Esac), Token::Variable("esac".to_owned()));
    assert_eq!(to_variable(Token::EndIf), Token::Variable("fi".to_owned()));
    assert_eq!(to_variable(Token::ElIf), Token::Variable("elif".to_owned()));
    assert_eq!(to_variable(Token::Pipe), Token::Illegal);
    assert_eq!(to_variable(Token::StringLiteral("s".to_owned())), Token::Illegal);
    assert_eq!(to_variable(Token::EOF), Token::Illegal);
}

#[test]
fn name_bytes() {
    assert!(is_alpha_or_underscore(b'a'));
    assert!(is_alpha_or_underscore(b'Z'));
    assert!(is_alpha_or_underscore(b'_'));
    assert!(!is_alpha_or_underscore(b'0'));
    assert!(!is_alpha_or_underscore(b'@'));
    assert!(!is_alpha_or_underscore(b'['));
    assert!(!is_alpha_or_underscore(b'`'));
    assert!(!is_alpha_or_underscore(b'{'));
    assert!(!is_alpha_or_underscore(0xe9));
}

#[test]
fn texts_compare_by_characters() {
    assert!(same_text("abc", "abc"));
    assert!(same_text("", ""));
    assert!(!same_text("abc", "abd"));
    assert!(!same_text("abc", "ab"));
    assert!(!same_text("", "a"));
}

#[test]
fn leading_blanks_change_nothing() {
    let input = b"while x; do $y; done";
    let mut padded = b" \t\r\n ".to_vec();
    padded.extend_from_slice(input);
    assert_eq!(lex(&padded), lex(input));
}

#[test]
fn tokens_after_a_token_are_those_of_the_rest() {
    let whole = lex(b"echo \"a b\" >> $log");
    let rest = lex(b" \"a b\" >> $log");
    assert_eq!(whole[0], word("echo"));
    assert_eq!(whole[1..], rest[..]);
}

#[test]
fn comment_line_in_front_changes_nothing() {
    let input = b"a=1; b";
    let mut commented = b"# a \"note\" $x\n".to_vec();
    commented.extend_from_slice(input);
    assert_eq!(lex(&commented), lex(input));
    assert_eq!(lex(b"# \"open"), vec![Token::EOF]);
}
