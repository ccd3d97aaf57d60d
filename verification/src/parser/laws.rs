//! What holds of every lexing, proved from the grammar.
use crate::parser::grammar::{
    ascii_text, digits_end, is_blank, is_digit, is_letter, is_name_byte,
    lemma_digits_end_bounds, lemma_lexeme_advances, lemma_name_end_bounds, lemma_skip_blank_bounds,
    lex, lexeme_at, name_end, number_at, operator_at, operator_spelling, prepend, quoted_at, skip_blank, stands_at, string_at,
    tokens_from, variable_at, word_at, LexError, Lexeme, Quoted, BACKSLASH, DOLLAR, HASH,
    LINE_FEED, QUOTE,
};
use crate::parser::token::{keyword, reserved_or_word, spelling, variable_of, TokenView};
use vstd::prelude::*;
use vstd::utf8::*;

verus! {

/// A successful lexing from any position ends with `EOF` and holds no other
/// `EOF`.
pub proof fn lemma_tokens_end(s: Seq<u8>, i: int)
    requires
        0 <= i <= s.len(),
    ensures
        tokens_from(s, i) matches Ok(tokens) ==> {
            &&& tokens.len() >= 1
            &&& tokens.last() == TokenView::EOF
            &&& forall|k: int| 0 <= k < tokens.len() - 1 ==> tokens[k] != TokenView::EOF
        },
    decreases s.len() - i,
{
    lemma_skip_blank_bounds(s, i, false);
    let start = skip_blank(s, i, false);
    if start < s.len() {
        lemma_lexeme_advances(s, start);
        match lexeme_at(s, start) {
            Lexeme::Token(token, next) => {
                lemma_tokens_end(s, next);
            },
            Lexeme::Unterminated => {},
        }
    }
}

/// Lexing is total: every input either fails as an unterminated literal or
/// yields tokens of which the last, and no other, is `EOF`.
pub proof fn law_total(s: Seq<u8>)
    ensures
        match lex(s) {
            Ok(tokens) => {
                &&& tokens.len() >= 1
                &&& tokens.last() == TokenView::EOF
                &&& forall|k: int| 0 <= k < tokens.len() - 1 ==> tokens[k] != TokenView::EOF
            },
            Err(e) => e == LexError::UnterminatedLiteral,
        },
{
    lemma_tokens_end(s, 0);
}

/// Lexing is a function of the bytes: inputs that hold the same bytes lex to
/// the same result.
pub proof fn law_same_bytes_same_tokens(a: Seq<u8>, b: Seq<u8>)
    requires
        a.len() == b.len(),
        forall|k: int| 0 <= k < a.len() ==> a[k] == b[k],
    ensures
        lex(a) == lex(b),
{
    assert(a =~= b);
}

/// A letter followed by identifier bytes only.
pub open spec fn is_identifier(s: Seq<u8>) -> bool {
    &&& s.len() >= 1
    &&& is_letter(s[0])
    &&& forall|k: int| 1 <= k < s.len() ==> is_name_byte(#[trigger] s[k])
}

/// A run of identifier bytes that stops at `end` is the longest one.
pub proof fn lemma_name_end_is(s: Seq<u8>, i: int, end: int)
    requires
        0 <= i <= end <= s.len(),
        forall|k: int| i <= k < end ==> is_name_byte(#[trigger] s[k]),
        end < s.len() ==> !is_name_byte(s[end]),
    ensures
        name_end(s, i) == end,
    decreases end - i,
{
    if i < end {
        lemma_name_end_is(s, i + 1, end);
    }
}

/// An identifier-shaped input lexes to one token: its keyword if the whole
/// text is a reserved spelling, else the word that carries the text.
pub proof fn law_identifier_alone(s: Seq<u8>)
    requires
        is_identifier(s),
    ensures
        lex(s) == Ok::<Seq<TokenView>, LexError>(
            seq![reserved_or_word(ascii_text(s)), TokenView::EOF],
        ),
        keyword(ascii_text(s)) is None ==> lex(s) == Ok::<Seq<TokenView>, LexError>(
            seq![TokenView::Word(ascii_text(s)), TokenView::EOF],
        ),
{
    let n = s.len() as int;
    lemma_name_end_is(s, 1, n);
    assert(s.subrange(0, n) =~= s);
    assert(skip_blank(s, 0, false) == 0);
    assert(lexeme_at(s, 0) == word_at(s, 0));
    assert(skip_blank(s, n, false) == n);
    assert(tokens_from(s, n) == Ok::<Seq<TokenView>, LexError>(seq![TokenView::EOF]));
    let token = reserved_or_word(ascii_text(s));
    assert(seq![token] + seq![TokenView::EOF] =~= seq![token, TokenView::EOF]);
}

/// The characters of each reserved spelling.
pub proof fn lemma_spellings()
    ensures
        "if"@ =~= seq!['i', 'f'],
        "then"@ =~= seq!['t', 'h', 'e', 'n'],
        "else"@ =~= seq!['e', 'l', 's', 'e'],
        "elif"@ =~= seq!['e', 'l', 'i', 'f'],
        "fi"@ =~= seq!['f', 'i'],
        "for"@ =~= seq!['f', 'o', 'r'],
        "do"@ =~= seq!['d', 'o'],
        "done"@ =~= seq!['d', 'o', 'n', 'e'],
        "case"@ =~= seq!['c', 'a', 's', 'e'],
        "esac"@ =~= seq!['e', 's', 'a', 'c'],
        "while"@ =~= seq!['w', 'h', 'i', 'l', 'e'],
        "until"@ =~= seq!['u', 'n', 't', 'i', 'l'],
        "function"@ =~= seq!['f', 'u', 'n', 'c', 't', 'i', 'o', 'n'],
        "select"@ =~= seq!['s', 'e', 'l', 'e', 'c', 't'],
{
    reveal_strlit("if");
    reveal_strlit("then");
    reveal_strlit("else");
    reveal_strlit("elif");
    reveal_strlit("fi");
    reveal_strlit("for");
    reveal_strlit("do");
    reveal_strlit("done");
    reveal_strlit("case");
    reveal_strlit("esac");
    reveal_strlit("while");
    reveal_strlit("until");
    reveal_strlit("function");
    reveal_strlit("select");
}

/// The reserved-word table is one to one: each keyword's spelling resolves
/// to that keyword.
pub proof fn law_keyword_table(token: TokenView)
    requires
        spelling(token) is Some,
    ensures
        keyword(spelling(token)->0) == Some(token),
        reserved_or_word(spelling(token)->0) == token,
{
    lemma_spellings();
    let text = spelling(token)->0;
    assert(text.len() >= 2);
    assert(text[0] == text[0]);
    assert(text[1] == text[1]);
    if text.len() >= 4 {
        assert(text[2] == text[2]);
        assert(text[3] == text[3]);
    }
}

/// Each keyword's spelling, lexed alone, yields that keyword and not a word.
pub proof fn law_keyword_alone(token: TokenView)
    requires
        spelling(token) is Some,
    ensures
        lex(encode_utf8(spelling(token)->0)) == Ok::<Seq<TokenView>, LexError>(
            seq![token, TokenView::EOF],
        ),
{
    lemma_spellings();
    law_keyword_table(token);
    let text = spelling(token)->0;
    let s = encode_utf8(text);
    assert(is_ascii_chars(text));
    is_ascii_chars_encode_utf8(text);
    assert forall|k: int| 0 <= k < s.len() implies is_letter(#[trigger] s[k]) by {
        assert(s[k] == text[k] as u8);
    }
    assert(is_identifier(s));
    assert(ascii_text(s) =~= text) by {
        assert forall|k: int| 0 <= k < s.len() implies ascii_text(s)[k] == text[k] by {
            assert(s[k] == text[k] as u8);
        }
    }
    law_identifier_alone(s);
}

/// A scan result, moved `n` positions to the right.
pub open spec fn shift_quoted(q: Quoted, n: int) -> Quoted {
    match q {
        Quoted::Closed(content, next) => Quoted::Closed(content, next + n),
        Quoted::Malformed => Quoted::Malformed,
        Quoted::Open => Quoted::Open,
    }
}

/// A match, moved `n` positions to the right.
pub open spec fn shift_lexeme(l: Lexeme, n: int) -> Lexeme {
    match l {
        Lexeme::Token(token, next) => Lexeme::Token(token, next + n),
        Lexeme::Unterminated => Lexeme::Unterminated,
    }
}

/// Skipping does not look at what stands before its position.
pub proof fn lemma_skip_blank_shift(p: Seq<u8>, s: Seq<u8>, i: int, in_comment: bool)
    requires
        0 <= i <= s.len(),
    ensures
        skip_blank(p + s, p.len() + i, in_comment) == p.len() + skip_blank(s, i, in_comment),
    decreases s.len() - i,
{
    if i < s.len() {
        assert((p + s)[p.len() + i] == s[i]);
        if in_comment {
            lemma_skip_blank_shift(p, s, i + 1, s[i] != LINE_FEED);
        } else if is_blank(s[i]) {
            lemma_skip_blank_shift(p, s, i + 1, false);
        } else if s[i] == HASH {
            lemma_skip_blank_shift(p, s, i + 1, true);
        }
    }
}

/// A run of identifier bytes does not look at what stands before it.
pub proof fn lemma_name_end_shift(p: Seq<u8>, s: Seq<u8>, i: int)
    requires
        0 <= i <= s.len(),
    ensures
        name_end(p + s, p.len() + i) == p.len() + name_end(s, i),
    decreases s.len() - i,
{
    if i < s.len() {
        assert((p + s)[p.len() + i] == s[i]);
        if is_name_byte(s[i]) {
            lemma_name_end_shift(p, s, i + 1);
        }
    }
}

/// A run of digits does not look at what stands before it.
pub proof fn lemma_digits_end_shift(p: Seq<u8>, s: Seq<u8>, i: int)
    requires
        0 <= i <= s.len(),
    ensures
        digits_end(p + s, p.len() + i) == p.len() + digits_end(s, i),
    decreases s.len() - i,
{
    if i < s.len() {
        assert((p + s)[p.len() + i] == s[i]);
        if is_digit(s[i]) {
            lemma_digits_end_shift(p, s, i + 1);
        }
    }
}

/// The scan of a literal does not look at what stands before it.
pub proof fn lemma_quoted_shift(p: Seq<u8>, s: Seq<u8>, i: int, content: Seq<u8>)
    requires
        0 <= i <= s.len(),
    ensures
        quoted_at(p + s, p.len() + i, content) == shift_quoted(
            quoted_at(s, i, content),
            p.len() as int,
        ),
    decreases s.len() - i,
{
    if i < s.len() {
        assert((p + s)[p.len() + i] == s[i]);
        if s[i] == QUOTE {
        } else if s[i] != BACKSLASH {
            lemma_quoted_shift(p, s, i + 1, content.push(s[i]));
        } else if i + 1 < s.len() {
            assert((p + s)[p.len() + i + 1] == s[i + 1]);
            if s[i + 1] == QUOTE || s[i + 1] == BACKSLASH {
                lemma_quoted_shift(p, s, i + 2, content.push(s[i + 1]));
            }
        }
    }
}

/// The operator table does not look at what stands before its position.
pub proof fn lemma_operator_shift(p: Seq<u8>, s: Seq<u8>, i: int)
    requires
        0 <= i < s.len(),
    ensures
        operator_at(p + s, p.len() + i) == operator_at(s, i),
{
    let n = p.len() as int;
    assert((p + s)[n + i] == s[i]);
    if i + 1 < s.len() {
        assert((p + s)[n + i + 1] == s[i + 1]);
    }
    if i + 2 < s.len() {
        assert((p + s)[n + i + 2] == s[i + 2]);
    }
}

/// The identifier matcher does not look at what stands before its position.
pub proof fn lemma_word_shift(p: Seq<u8>, s: Seq<u8>, i: int)
    requires
        0 <= i < s.len(),
    ensures
        word_at(p + s, p.len() + i) == shift_lexeme(word_at(s, i), p.len() as int),
{
    let n = p.len() as int;
    lemma_name_end_shift(p, s, i + 1);
    lemma_name_end_bounds(s, i + 1);
    let end = name_end(s, i + 1);
    assert((p + s).subrange(n + i, n + end) =~= s.subrange(i, end));
}

/// The number matcher does not look at what stands before its position.
pub proof fn lemma_number_shift(p: Seq<u8>, s: Seq<u8>, i: int)
    requires
        0 <= i < s.len(),
    ensures
        number_at(p + s, p.len() + i) == shift_lexeme(number_at(s, i), p.len() as int),
{
    let n = p.len() as int;
    lemma_digits_end_shift(p, s, i + 1);
    lemma_digits_end_bounds(s, i + 1);
    let end = digits_end(s, i + 1);
    assert((p + s).subrange(n + i, n + end) =~= s.subrange(i, end));
}

/// A match does not look at what stands before its position.
pub proof fn lemma_lexeme_shift(p: Seq<u8>, s: Seq<u8>, i: int)
    requires
        0 <= i < s.len(),
    ensures
        lexeme_at(p + s, p.len() + i) == shift_lexeme(lexeme_at(s, i), p.len() as int),
{
    let n = p.len() as int;
    assert((p + s)[n + i] == s[i]);
    lemma_operator_shift(p, s, i);
    if operator_at(s, i) is None {
        if is_letter(s[i]) {
            lemma_word_shift(p, s, i);
        } else if is_digit(s[i]) {
            lemma_number_shift(p, s, i);
        } else if s[i] == QUOTE {
            lemma_quoted_shift(p, s, i + 1, Seq::empty());
            assert(string_at(p + s, n + i) == shift_lexeme(string_at(s, i), n));
        } else if s[i] == DOLLAR {
            if i + 1 < s.len() {
                assert((p + s)[n + i + 1] == s[i + 1]);
                lemma_word_shift(p, s, i + 1);
                lemma_number_shift(p, s, i + 1);
            }
            assert(variable_at(p + s, n + i) == shift_lexeme(variable_at(s, i), n));
        }
    }
}

/// The lexer keeps no state: the tokens from a position on depend only on
/// the bytes from that position on.
pub proof fn law_suffix_decides(p: Seq<u8>, s: Seq<u8>, i: int)
    requires
        0 <= i <= s.len(),
    ensures
        tokens_from(p + s, p.len() + i) == tokens_from(s, i),
    decreases s.len() - i,
{
    let n = p.len() as int;
    lemma_skip_blank_shift(p, s, i, false);
    lemma_skip_blank_bounds(s, i, false);
    let start = skip_blank(s, i, false);
    if start < s.len() {
        lemma_lexeme_shift(p, s, start);
        lemma_lexeme_advances(s, start);
        match lexeme_at(s, start) {
            Lexeme::Token(token, next) => {
                law_suffix_decides(p, s, next);
            },
            Lexeme::Unterminated => {},
        }
    }
}

/// Every byte is a blank.
pub open spec fn is_blank_run(x: Seq<u8>) -> bool {
    forall|k: int| 0 <= k < x.len() ==> is_blank(#[trigger] x[k])
}

/// Skipping passes over a stretch of blanks.
pub proof fn lemma_skip_blank_run(s: Seq<u8>, i: int, j: int)
    requires
        0 <= i <= j <= s.len(),
        forall|k: int| i <= k < j ==> is_blank(#[trigger] s[k]),
    ensures
        skip_blank(s, i, false) == skip_blank(s, j, false),
    decreases j - i,
{
    if i < j {
        lemma_skip_blank_run(s, i + 1, j);
    }
}

/// Blanks in front of an input change nothing.
pub proof fn law_leading_blanks(x: Seq<u8>, s: Seq<u8>)
    requires
        is_blank_run(x),
    ensures
        lex(x + s) == lex(s),
{
    let n = x.len() as int;
    assert forall|k: int| 0 <= k < n implies is_blank(#[trigger] (x + s)[k]) by {
        assert((x + s)[k] == x[k]);
    }
    lemma_skip_blank_run(x + s, 0, n);
    assert(tokens_from(x + s, 0) == tokens_from(x + s, n));
    law_suffix_decides(x, s, 0);
}

/// An identifier between blanks and a rest that cannot prolong it lexes to
/// its token, followed by the tokens of the rest.
pub proof fn lemma_word_then(x: Seq<u8>, w: Seq<u8>, r: Seq<u8>)
    requires
        is_blank_run(x),
        is_identifier(w),
        r.len() == 0 || !is_name_byte(r[0]),
    ensures
        lex(x + w + r) == prepend(seq![reserved_or_word(ascii_text(w))], lex(r)),
{
    let s = x + w + r;
    let a = x.len() as int;
    let b = a + w.len();
    assert forall|k: int| 0 <= k < a implies is_blank(#[trigger] s[k]) by {
        assert(s[k] == x[k]);
    }
    lemma_skip_blank_run(s, 0, a);
    assert(s[a] == w[0]);
    assert(skip_blank(s, a, false) == a);
    assert forall|k: int| a + 1 <= k < b implies is_name_byte(#[trigger] s[k]) by {
        assert(s[k] == w[k - a]);
    }
    if b < s.len() {
        assert(s[b] == r[0]);
    }
    lemma_name_end_is(s, a + 1, b);
    assert(s.subrange(a, b) =~= w);
    assert(lexeme_at(s, a) == word_at(s, a));
    assert(s =~= (x + w) + r);
    law_suffix_decides(x + w, r, 0);
}

/// Words with a stretch of bytes before each and one after the last.
pub open spec fn spaced(words: Seq<Seq<u8>>, gaps: Seq<Seq<u8>>) -> Seq<u8>
    decreases words.len(),
{
    if gaps.len() == 0 {
        Seq::empty()
    } else if words.len() == 0 {
        gaps[0]
    } else {
        gaps[0] + words[0] + spaced(words.drop_first(), gaps.drop_first())
    }
}

/// Identifiers set apart by blanks: one gap before each word and one after
/// the last, every gap blank, and no gap between two words empty.
pub open spec fn well_spaced(words: Seq<Seq<u8>>, gaps: Seq<Seq<u8>>) -> bool {
    &&& gaps.len() == words.len() + 1
    &&& forall|k: int| 0 <= k < words.len() ==> is_identifier(#[trigger] words[k])
    &&& forall|k: int| 0 <= k < gaps.len() ==> is_blank_run(#[trigger] gaps[k])
    &&& forall|k: int| 1 <= k < words.len() ==> (#[trigger] gaps[k]).len() >= 1
}

/// The token of each identifier.
pub open spec fn resolved(words: Seq<Seq<u8>>) -> Seq<TokenView> {
    Seq::new(words.len(), |k: int| reserved_or_word(ascii_text(words[k])))
}

/// Identifiers set apart by blanks lex to the token of each, in order, then
/// `EOF`: which blanks stand between them, and how many, does not matter.
pub proof fn law_blank_separated_words(words: Seq<Seq<u8>>, gaps: Seq<Seq<u8>>)
    requires
        well_spaced(words, gaps),
    ensures
        lex(spaced(words, gaps)) == Ok::<Seq<TokenView>, LexError>(
            resolved(words).push(TokenView::EOF),
        ),
    decreases words.len(),
{
    if words.len() == 0 {
        let x = gaps[0];
        lemma_skip_blank_run(x, 0, x.len() as int);
        assert(resolved(words).push(TokenView::EOF) =~= seq![TokenView::EOF]);
    } else {
        let later = words.drop_first();
        let after = gaps.drop_first();
        assert forall|k: int| 0 <= k < later.len() implies is_identifier(#[trigger] later[k]) by {
            assert(later[k] == words[k + 1]);
        }
        assert forall|k: int| 0 <= k < after.len() implies is_blank_run(#[trigger] after[k]) by {
            assert(after[k] == gaps[k + 1]);
        }
        assert forall|k: int| 1 <= k < later.len() implies (#[trigger] after[k]).len() >= 1 by {
            assert(after[k] == gaps[k + 1]);
        }
        law_blank_separated_words(later, after);
        let r = spaced(later, after);
        assert(after[0] == gaps[1]);
        if later.len() > 0 {
            assert(r[0] == gaps[1][0]);
        }
        assert(r.len() == 0 || is_blank(r[0]));
        lemma_word_then(gaps[0], words[0], r);
        let token = reserved_or_word(ascii_text(words[0]));
        assert(seq![token] + resolved(later).push(TokenView::EOF) =~= resolved(words).push(
            TokenView::EOF,
        ));
    }
}

/// Blanks are insignificant: the same identifiers, spaced in two ways, lex
/// to the same tokens.
pub proof fn law_spacing_is_insignificant(
    words: Seq<Seq<u8>>,
    gaps: Seq<Seq<u8>>,
    other_gaps: Seq<Seq<u8>>,
)
    requires
        well_spaced(words, gaps),
        well_spaced(words, other_gaps),
    ensures
        lex(spaced(words, gaps)) == lex(spaced(words, other_gaps)),
{
    law_blank_separated_words(words, gaps);
    law_blank_separated_words(words, other_gaps);
}

/// Unsupported bytes never fail a lexing: an input without a quote lexes.
pub proof fn law_no_quote_no_failure(s: Seq<u8>, i: int)
    requires
        0 <= i <= s.len(),
        forall|k: int| 0 <= k < s.len() ==> s[k] != QUOTE,
    ensures
        tokens_from(s, i) is Ok,
        i == 0 ==> lex(s) is Ok,
    decreases s.len() - i,
{
    lemma_skip_blank_bounds(s, i, false);
    let start = skip_blank(s, i, false);
    if start < s.len() {
        lemma_lexeme_advances(s, start);
        match lexeme_at(s, start) {
            Lexeme::Token(token, next) => {
                law_no_quote_no_failure(s, next);
            },
            Lexeme::Unterminated => {},
        }
    }
}

/// A variable keeps its name, also where the name is a reserved spelling.
pub proof fn law_variable_keeps_its_name(text: Seq<char>)
    ensures
        variable_of(reserved_or_word(text)) == TokenView::Variable(text),
{
}

/// Inside a comment, skipping passes over every byte but a line feed.
pub proof fn lemma_skip_comment(s: Seq<u8>, i: int, j: int)
    requires
        0 <= i <= j <= s.len(),
        forall|k: int| i <= k < j ==> s[k] != LINE_FEED,
    ensures
        skip_blank(s, i, true) == skip_blank(s, j, true),
    decreases j - i,
{
    if i < j {
        lemma_skip_comment(s, i + 1, j);
    }
}

/// A comment line yields no token: an input lexes as it does without a
/// comment line in front of it.
pub proof fn law_comment_line(comment: Seq<u8>, s: Seq<u8>)
    requires
        forall|k: int| 0 <= k < comment.len() ==> comment[k] != LINE_FEED,
    ensures
        lex(seq![HASH] + comment + seq![LINE_FEED] + s) == lex(s),
{
    let line = seq![HASH] + comment + seq![LINE_FEED];
    let all = line + s;
    let n = line.len() as int;
    assert(all[0] == HASH);
    assert(all[n - 1] == LINE_FEED);
    assert forall|k: int| 1 <= k < n - 1 implies all[k] != LINE_FEED by {
        assert(all[k] == comment[k - 1]);
    }
    lemma_skip_comment(all, 1, n - 1);
    assert(skip_blank(all, 0, false) == skip_blank(all, 1, true));
    assert(skip_blank(all, n - 1, true) == skip_blank(all, n, false));
    assert(tokens_from(all, 0) == tokens_from(all, n));
    law_suffix_decides(line, s, 0);
}

/// A comment that runs to the end of the input yields no token.
pub proof fn law_comment_at_end(comment: Seq<u8>)
    requires
        forall|k: int| 0 <= k < comment.len() ==> comment[k] != LINE_FEED,
    ensures
        lex(seq![HASH] + comment) == Ok::<Seq<TokenView>, LexError>(seq![TokenView::EOF]),
{
    let all = seq![HASH] + comment;
    let n = all.len() as int;
    assert(all[0] == HASH);
    assert forall|k: int| 1 <= k < n implies all[k] != LINE_FEED by {
        assert(all[k] == comment[k - 1]);
    }
    lemma_skip_comment(all, 1, n);
    assert(skip_blank(all, 0, false) == skip_blank(all, 1, true));
    assert(skip_blank(all, n, true) == n);
}

/// The operator table picks the longest spelling: the operator matched at a
/// position is one whose spelling stands there, and no operator with a
/// longer spelling stands there. Where none is matched, none stands there.
pub proof fn law_longest_operator(s: Seq<u8>, i: int, other: TokenView)
    requires
        0 <= i < s.len(),
        operator_spelling(other) matches Some(p) && stands_at(s, i, p),
    ensures
        operator_at(s, i) matches Some((token, len)) && {
            &&& operator_spelling(token) matches Some(p) && p.len() == len && stands_at(s, i, p)
            &&& operator_spelling(other)->0.len() <= len
            &&& operator_spelling(other)->0.len() == len ==> other == token
        },
{
}

/// The operator matched at a position is spelled there, and takes as many
/// bytes as its spelling has.
pub proof fn law_operator_is_spelled(s: Seq<u8>, i: int)
    requires
        0 <= i < s.len(),
    ensures
        operator_at(s, i) matches Some((token, len)) ==> {
            operator_spelling(token) matches Some(p) && p.len() == len && stands_at(s, i, p)
        },
{
}

/// A keyword's spelling is the only text that resolves to it.
pub proof fn law_keyword_is_its_spelling(text: Seq<char>)
    ensures
        keyword(text) matches Some(token) ==> spelling(token) == Some(text),
{
}

/// A run of digits that stops at `end` is the longest one.
pub proof fn lemma_digits_end_is(s: Seq<u8>, i: int, end: int)
    requires
        0 <= i <= end <= s.len(),
        forall|k: int| i <= k < end ==> is_digit(#[trigger] s[k]),
        end < s.len() ==> !is_digit(s[end]),
    ensures
        digits_end(s, i) == end,
    decreases end - i,
{
    if i < end {
        lemma_digits_end_is(s, i + 1, end);
    }
}

/// An input of digits only lexes to one number that carries all of them.
pub proof fn law_number_alone(s: Seq<u8>)
    requires
        s.len() >= 1,
        forall|k: int| 0 <= k < s.len() ==> is_digit(#[trigger] s[k]),
    ensures
        lex(s) == Ok::<Seq<TokenView>, LexError>(
            seq![TokenView::Number(ascii_text(s)), TokenView::EOF],
        ),
{
    let n = s.len() as int;
    lemma_digits_end_is(s, 1, n);
    assert(s.subrange(0, n) =~= s);
    assert(is_digit(s[0]));
    assert(skip_blank(s, 0, false) == 0);
    assert(lexeme_at(s, 0) == number_at(s, 0));
    assert(skip_blank(s, n, false) == n);
    assert(tokens_from(s, n) == Ok::<Seq<TokenView>, LexError>(seq![TokenView::EOF]));
    let token = TokenView::Number(ascii_text(s));
    assert(seq![token] + seq![TokenView::EOF] =~= seq![token, TokenView::EOF]);
}

/// Neither a quote nor a backslash.
pub open spec fn is_plain(b: u8) -> bool {
    b != QUOTE && b != BACKSLASH
}

/// Inside a literal, a stretch of plain bytes goes into the content as it is.
pub proof fn lemma_quoted_plain(s: Seq<u8>, i: int, j: int, content: Seq<u8>)
    requires
        0 <= i <= j <= s.len(),
        forall|k: int| i <= k < j ==> is_plain(#[trigger] s[k]),
    ensures
        quoted_at(s, i, content) == quoted_at(s, j, content + s.subrange(i, j)),
    decreases j - i,
{
    if i < j {
        lemma_quoted_plain(s, i + 1, j, content.push(s[i]));
        assert(content.push(s[i]) + s.subrange(i + 1, j) =~= content + s.subrange(i, j));
    } else {
        assert(content + s.subrange(i, j) =~= content);
    }
}

/// Text between quotes, with no quote or backslash in it, lexes to the
/// string literal that holds exactly that text.
pub proof fn law_plain_literal(content: Seq<u8>)
    requires
        forall|k: int| 0 <= k < content.len() ==> is_plain(#[trigger] content[k]),
        valid_utf8(content),
    ensures
        lex(seq![QUOTE] + content + seq![QUOTE]) == Ok::<Seq<TokenView>, LexError>(
            seq![TokenView::StringLiteral(decode_utf8(content)), TokenView::EOF],
        ),
{
    let s = seq![QUOTE] + content + seq![QUOTE];
    let n = s.len() as int;
    assert(s[0] == QUOTE);
    assert(s[n - 1] == QUOTE);
    assert forall|k: int| 1 <= k < n - 1 implies is_plain(#[trigger] s[k]) by {
        assert(s[k] == content[k - 1]);
    }
    lemma_quoted_plain(s, 1, n - 1, Seq::empty());
    assert(Seq::<u8>::empty() + s.subrange(1, n - 1) =~= content);
    assert(quoted_at(s, n - 1, content) == Quoted::Closed(content, n));
    assert(skip_blank(s, 0, false) == 0);
    assert(lexeme_at(s, 0) == string_at(s, 0));
    assert(skip_blank(s, n, false) == n);
    assert(tokens_from(s, n) == Ok::<Seq<TokenView>, LexError>(seq![TokenView::EOF]));
    let token = TokenView::StringLiteral(decode_utf8(content));
    assert(seq![token] + seq![TokenView::EOF] =~= seq![token, TokenView::EOF]);
}

/// A literal that is opened and never closed fails the lexing.
pub proof fn law_open_literal_fails(content: Seq<u8>)
    requires
        forall|k: int| 0 <= k < content.len() ==> is_plain(#[trigger] content[k]),
    ensures
        lex(seq![QUOTE] + content) == Err::<Seq<TokenView>, LexError>(
            LexError::UnterminatedLiteral,
        ),
{
    let s = seq![QUOTE] + content;
    let n = s.len() as int;
    assert(s[0] == QUOTE);
    assert forall|k: int| 1 <= k < n implies is_plain(#[trigger] s[k]) by {
        assert(s[k] == content[k - 1]);
    }
    lemma_quoted_plain(s, 1, n, Seq::empty());
    assert(skip_blank(s, 0, false) == 0);
    assert(lexeme_at(s, 0) == string_at(s, 0));
}

} // verus!
