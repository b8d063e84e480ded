//! The MiniImp lexer: source text to tokens.
use vstd::prelude::*;
use vstd::std_specs::cmp::PartialEqSpecImpl;
use crate::common::error::{EvalError, ErrorModel};
use crate::common::scan::{
    ident_end, digits_end, digits_value, lemma_ident_end_bounds, lemma_digits_end_bounds,
    scan_ident_end, scan_digits_end, digits_to_i64, is_ident_char, lemma_runs_stop_at_break,
    lemma_digits_value_prefix, lemma_runs_shift, lemma_digits_value_shift,
};
use crate::common::text::{
    is_whitespace_char, is_alphabetic_char, is_alphanumeric_char, is_digit_char, int_text, str_debug_text, chars_of,
    string_of, char_is_whitespace, char_is_alphabetic, char_is_digit, same_as_str, text, push_char,
    push_text, push_i64_text, debug_quoted,
};

verus! {

/// A MiniImp token.
#[derive(Debug)]
pub enum Token {
    Identifier(String),
    Number(i64),
    Skip,
    If,
    Then,
    Else,
    While,
    Do,
    True,
    False,
    And,
    Not,
    /// `:=`
    Assign,
    /// `;`
    Semicolon,
    LParen,
    RParen,
    Plus,
    Minus,
    Star,
    Less,
}

/// A token with the name of an identifier taken by view.
pub enum TokenModel {
    Identifier(Seq<char>),
    Number(i64),
    Skip,
    If,
    Then,
    Else,
    While,
    Do,
    True,
    False,
    And,
    Not,
    Assign,
    Semicolon,
    LParen,
    RParen,
    Plus,
    Minus,
    Star,
    Less,
}

impl View for Token {
    type V = TokenModel;

    open spec fn view(&self) -> TokenModel {
        match self {
            Token::Identifier(s) => TokenModel::Identifier(s@),
            Token::Number(n) => TokenModel::Number(*n),
            Token::Skip => TokenModel::Skip,
            Token::If => TokenModel::If,
            Token::Then => TokenModel::Then,
            Token::Else => TokenModel::Else,
            Token::While => TokenModel::While,
            Token::Do => TokenModel::Do,
            Token::True => TokenModel::True,
            Token::False => TokenModel::False,
            Token::And => TokenModel::And,
            Token::Not => TokenModel::Not,
            Token::Assign => TokenModel::Assign,
            Token::Semicolon => TokenModel::Semicolon,
            Token::LParen => TokenModel::LParen,
            Token::RParen => TokenModel::RParen,
            Token::Plus => TokenModel::Plus,
            Token::Minus => TokenModel::Minus,
            Token::Star => TokenModel::Star,
            Token::Less => TokenModel::Less,
        }
    }
}

/// The tokens of a list, taken by view.
pub open spec fn tokens_view(ts: Seq<Token>) -> Seq<TokenModel> {
    ts.map_values(|t: Token| t@)
}

/// The text that `{:?}` prints for a token.
pub open spec fn token_text(t: TokenModel) -> Seq<char> {
    match t {
        TokenModel::Identifier(s) => "Identifier("@ + str_debug_text(s) + ")"@,
        TokenModel::Number(n) => "Number("@ + int_text(n as int) + ")"@,
        TokenModel::Skip => "Skip"@,
        TokenModel::If => "If"@,
        TokenModel::Then => "Then"@,
        TokenModel::Else => "Else"@,
        TokenModel::While => "While"@,
        TokenModel::Do => "Do"@,
        TokenModel::True => "True"@,
        TokenModel::False => "False"@,
        TokenModel::And => "And"@,
        TokenModel::Not => "Not"@,
        TokenModel::Assign => "Assign"@,
        TokenModel::Semicolon => "Semicolon"@,
        TokenModel::LParen => "LParen"@,
        TokenModel::RParen => "RParen"@,
        TokenModel::Plus => "Plus"@,
        TokenModel::Minus => "Minus"@,
        TokenModel::Star => "Star"@,
        TokenModel::Less => "Less"@,
    }
}

impl PartialEq for Token {
    fn eq(&self, other: &Token) -> (r: bool) {
        self.same(other)
    }
}

impl PartialEqSpecImpl for Token {
    open spec fn obeys_eq_spec() -> bool {
        true
    }

    open spec fn eq_spec(&self, other: &Token) -> bool {
        self@ == other@
    }
}

impl Token {
    /// Appends the `{:?}` text of the token to `s`.
    pub fn push_debug_text(&self, s: &mut String)
        ensures
            final(s)@ == old(s)@ + token_text(self@),
    {
        let name = match self {
            Token::Identifier(x) => {
                push_text(s, "Identifier(");
                let q = debug_quoted(x.as_str());
                push_text(s, q.as_str());
                push_text(s, ")");
                assert(final(s)@ =~= old(s)@ + token_text(self@));
                return;
            },
            Token::Number(n) => {
                push_text(s, "Number(");
                push_i64_text(s, *n);
                push_text(s, ")");
                assert(final(s)@ =~= old(s)@ + token_text(self@));
                return;
            },
            Token::Skip => "Skip",
            Token::If => "If",
            Token::Then => "Then",
            Token::Else => "Else",
            Token::While => "While",
            Token::Do => "Do",
            Token::True => "True",
            Token::False => "False",
            Token::And => "And",
            Token::Not => "Not",
            Token::Assign => "Assign",
            Token::Semicolon => "Semicolon",
            Token::LParen => "LParen",
            Token::RParen => "RParen",
            Token::Plus => "Plus",
            Token::Minus => "Minus",
            Token::Star => "Star",
            Token::Less => "Less",
        };
        push_text(s, name);
    }

    /// Are the two tokens the same?
    pub fn same(&self, other: &Token) -> (r: bool)
        ensures
            r == (self@ == other@),
    {
        match (self, other) {
            (Token::Identifier(a), Token::Identifier(b)) => a.eq(b),
            (Token::Number(a), Token::Number(b)) => *a == *b,
            (Token::Skip, Token::Skip) => true,
            (Token::If, Token::If) => true,
            (Token::Then, Token::Then) => true,
            (Token::Else, Token::Else) => true,
            (Token::While, Token::While) => true,
            (Token::Do, Token::Do) => true,
            (Token::True, Token::True) => true,
            (Token::False, Token::False) => true,
            (Token::And, Token::And) => true,
            (Token::Not, Token::Not) => true,
            (Token::Assign, Token::Assign) => true,
            (Token::Semicolon, Token::Semicolon) => true,
            (Token::LParen, Token::LParen) => true,
            (Token::RParen, Token::RParen) => true,
            (Token::Plus, Token::Plus) => true,
            (Token::Minus, Token::Minus) => true,
            (Token::Star, Token::Star) => true,
            (Token::Less, Token::Less) => true,
            _ => false,
        }
    }

    /// A copy of the token.
    pub fn copy(&self) -> (r: Token)
        ensures
            r == *self,
    {
        match self {
            Token::Identifier(x) => Token::Identifier(x.clone()),
            Token::Number(n) => Token::Number(*n),
            Token::Skip => Token::Skip,
            Token::If => Token::If,
            Token::Then => Token::Then,
            Token::Else => Token::Else,
            Token::While => Token::While,
            Token::Do => Token::Do,
            Token::True => Token::True,
            Token::False => Token::False,
            Token::And => Token::And,
            Token::Not => Token::Not,
            Token::Assign => Token::Assign,
            Token::Semicolon => Token::Semicolon,
            Token::LParen => Token::LParen,
            Token::RParen => Token::RParen,
            Token::Plus => Token::Plus,
            Token::Minus => Token::Minus,
            Token::Star => Token::Star,
            Token::Less => Token::Less,
        }
    }
}

/// The token that a word stands for: a keyword, or else an identifier.
pub open spec fn word_token(word: Seq<char>) -> TokenModel {
    if word == "skip"@ {
        TokenModel::Skip
    } else if word == "if"@ {
        TokenModel::If
    } else if word == "then"@ {
        TokenModel::Then
    } else if word == "else"@ {
        TokenModel::Else
    } else if word == "while"@ {
        TokenModel::While
    } else if word == "do"@ {
        TokenModel::Do
    } else if word == "true"@ {
        TokenModel::True
    } else if word == "false"@ {
        TokenModel::False
    } else if word == "and"@ {
        TokenModel::And
    } else if word == "not"@ {
        TokenModel::Not
    } else {
        TokenModel::Identifier(word)
    }
}

/// The symbol token at `i`, with where it ends; or the error for a character
/// that starts no token.
pub open spec fn symbol_at(cs: Seq<char>, i: int) -> Result<(TokenModel, int), ErrorModel> {
    let c = cs[i];
    if c == ':' {
        if i + 1 < cs.len() && cs[i + 1] == '=' {
            Ok((TokenModel::Assign, i + 2))
        } else {
            Err(ErrorModel::ParseError("expected '=' after ':' to form ':='"@))
        }
    } else if c == ';' {
        Ok((TokenModel::Semicolon, i + 1))
    } else if c == '(' {
        Ok((TokenModel::LParen, i + 1))
    } else if c == ')' {
        Ok((TokenModel::RParen, i + 1))
    } else if c == '+' {
        Ok((TokenModel::Plus, i + 1))
    } else if c == '-' {
        Ok((TokenModel::Minus, i + 1))
    } else if c == '*' {
        Ok((TokenModel::Star, i + 1))
    } else if c == '<' {
        Ok((TokenModel::Less, i + 1))
    } else {
        Err(ErrorModel::ParseError("unexpected character '"@ + seq![c] + "'"@))
    }
}

/// A token in front of the tokens of the rest, or the rest's error.
pub open spec fn cons_token(t: TokenModel, rest: Result<Seq<TokenModel>, ErrorModel>) -> Result<Seq<TokenModel>, ErrorModel> {
    match rest {
        Ok(ts) => Ok(seq![t] + ts),
        Err(e) => Err(e),
    }
}

/// The tokens of `cs[i..]`, or the first error in it.
pub open spec fn lex_from(cs: Seq<char>, i: int) -> Result<Seq<TokenModel>, ErrorModel>
    decreases cs.len() - i,
    via lex_from_decreases
{
    if i < 0 || i >= cs.len() {
        Ok(seq![])
    } else if is_whitespace_char(cs[i]) {
        lex_from(cs, i + 1)
    } else if is_alphabetic_char(cs[i]) {
        let j = ident_end(cs, i + 1);
        cons_token(word_token(cs.subrange(i, j)), lex_from(cs, j))
    } else if is_digit_char(cs[i]) {
        let j = digits_end(cs, i + 1);
        let v = digits_value(cs, i, j);
        if v > i64::MAX {
            Err(ErrorModel::ParseError("invalid integer literal '"@ + cs.subrange(i, j) + "'"@))
        } else {
            cons_token(TokenModel::Number(v as i64), lex_from(cs, j))
        }
    } else {
        match symbol_at(cs, i) {
            Ok((t, j)) => cons_token(t, lex_from(cs, j)),
            Err(e) => Err(e),
        }
    }
}

#[via_fn]
proof fn lex_from_decreases(cs: Seq<char>, i: int) {
    if 0 <= i < cs.len() {
        lemma_ident_end_bounds(cs, i + 1);
        lemma_digits_end_bounds(cs, i + 1);
    }
}

/// The tokens of a source text, or the first error in it.
pub open spec fn lex_spec(source: Seq<char>) -> Result<Seq<TokenModel>, ErrorModel> {
    lex_from(source, 0)
}

/// The tokens already read in front of the tokens of the rest.
pub open spec fn prepend_tokens(done: Seq<TokenModel>, rest: Result<Seq<TokenModel>, ErrorModel>) -> Result<Seq<TokenModel>, ErrorModel> {
    match rest {
        Ok(ts) => Ok(done + ts),
        Err(e) => Err(e),
    }
}

proof fn lemma_prepend_cons(done: Seq<TokenModel>, t: TokenModel, rest: Result<Seq<TokenModel>, ErrorModel>)
    ensures
        prepend_tokens(done, cons_token(t, rest)) == prepend_tokens(done + seq![t], rest),
{
    if let Ok(ts) = rest {
        assert(done + (seq![t] + ts) =~= (done + seq![t]) + ts);
    }
}

// ---------------------------------------------------------------------------
// A space only separates tokens

/// Lexing a text `cs` that begins with `a` and goes on with a space reads
/// the tokens of `a` and then goes on after the space.
proof fn lemma_lex_prefix(a: Seq<char>, cs: Seq<char>, i: int)
    requires
        is_whitespace_char(' '),
        !is_ident_char(' '),
        a.len() < cs.len(),
        forall|k: int| 0 <= k < a.len() ==> #[trigger] cs[k] == a[k],
        cs[a.len() as int] == ' ',
        0 <= i <= a.len(),
        lex_from(a, i) is Ok,
    ensures
        lex_from(cs, i) == prepend_tokens(lex_from(a, i)->Ok_0, lex_from(cs, a.len() + 1int)),
    decreases a.len() - i,
{
    if i == a.len() {
        if let Ok(ts) = lex_from(cs, a.len() + 1int) {
            assert(Seq::<TokenModel>::empty() + ts =~= ts);
        }
    } else {
        assert(cs[i] == a[i]);
        if is_whitespace_char(a[i]) {
            lemma_lex_prefix(a, cs, i + 1);
        } else if is_alphabetic_char(a[i]) {
            lemma_ident_end_bounds(a, i + 1);
            lemma_runs_stop_at_break(a, cs, i + 1);
            let j = ident_end(a, i + 1);
            assert(cs.subrange(i, j) =~= a.subrange(i, j));
            lemma_lex_prefix(a, cs, j);
            lemma_prepend_assoc(seq![word_token(a.subrange(i, j))], lex_from(a, j)->Ok_0, lex_from(cs, a.len() + 1int));
        } else if is_digit_char(a[i]) {
            lemma_digits_end_bounds(a, i + 1);
            lemma_runs_stop_at_break(a, cs, i + 1);
            let j = digits_end(a, i + 1);
            lemma_digits_value_prefix(a, cs, i, j);
            lemma_lex_prefix(a, cs, j);
            let t = TokenModel::Number(digits_value(a, i, j) as i64);
            lemma_prepend_assoc(seq![t], lex_from(a, j)->Ok_0, lex_from(cs, a.len() + 1int));
        } else {
            if a[i] == ':' && i + 1 == a.len() {
                assert(symbol_at(a, i) is Err);
            }
            assert(symbol_at(cs, i) == symbol_at(a, i));
            let (t, j) = symbol_at(a, i)->Ok_0;
            lemma_lex_prefix(a, cs, j);
            lemma_prepend_assoc(seq![t], lex_from(a, j)->Ok_0, lex_from(cs, a.len() + 1int));
        }
    }
}

/// Tokens in front of tokens in front of a result.
proof fn lemma_prepend_assoc(x: Seq<TokenModel>, y: Seq<TokenModel>, rest: Result<Seq<TokenModel>, ErrorModel>)
    ensures
        prepend_tokens(x, prepend_tokens(y, rest)) == prepend_tokens(x + y, rest),
        cons_token(x[0], prepend_tokens(y, rest)) == prepend_tokens(seq![x[0]] + y, rest),
{
    if let Ok(ts) = rest {
        assert(x + (y + ts) =~= (x + y) + ts);
        assert(seq![x[0]] + (y + ts) =~= (seq![x[0]] + y) + ts);
    }
}

/// Lexing the text `b` that `cs` ends with, from `p` on, reads the tokens
/// of `b`.
proof fn lemma_lex_shift(b: Seq<char>, cs: Seq<char>, p: int, j: int)
    requires
        0 <= p,
        p + b.len() == cs.len(),
        forall|k: int| 0 <= k < b.len() ==> #[trigger] cs[p + k] == b[k],
        0 <= j <= b.len(),
    ensures
        lex_from(cs, p + j) == lex_from(b, j),
    decreases b.len() - j,
{
    if j < b.len() {
        assert(cs[p + j] == b[j]);
        let c = b[j];
        if is_whitespace_char(c) {
            lemma_lex_shift(b, cs, p, j + 1);
            assert(p + j + 1 == p + (j + 1));
        } else if is_alphabetic_char(c) {
            lemma_ident_end_bounds(b, j + 1);
            lemma_runs_shift(b, cs, p, j + 1);
            let e = ident_end(b, j + 1);
            assert(ident_end(cs, p + j + 1) == p + e) by {
                assert(p + j + 1 == p + (j + 1));
            }
            assert forall|k: int| 0 <= k < e - j implies cs.subrange(p + j, p + e)[k] == #[trigger] b.subrange(j, e)[k] by {
                assert(cs[p + (j + k)] == b[j + k]);
            }
            assert(cs.subrange(p + j, p + e) =~= b.subrange(j, e));
            lemma_lex_shift(b, cs, p, e);
        } else if is_digit_char(c) {
            lemma_digits_end_bounds(b, j + 1);
            lemma_runs_shift(b, cs, p, j + 1);
            let e = digits_end(b, j + 1);
            assert(digits_end(cs, p + j + 1) == p + e) by {
                assert(p + j + 1 == p + (j + 1));
            }
            lemma_digits_value_shift(b, cs, p, j, e);
            assert forall|k: int| 0 <= k < e - j implies cs.subrange(p + j, p + e)[k] == #[trigger] b.subrange(j, e)[k] by {
                assert(cs[p + (j + k)] == b[j + k]);
            }
            assert(cs.subrange(p + j, p + e) =~= b.subrange(j, e));
            lemma_lex_shift(b, cs, p, e);
        } else {
            if j + 1 < b.len() {
                assert(cs[p + (j + 1)] == b[j + 1]);
            }
            match symbol_at(b, j) {
                Ok((t, e)) => {
                    assert(symbol_at(cs, p + j) == Ok::<(TokenModel, int), ErrorModel>((t, p + e)));
                    lemma_lex_shift(b, cs, p, e);
                },
                Err(_) => {
                    assert(symbol_at(cs, p + j) == symbol_at(b, j));
                },
            }
        }
    }
}

/// A space only separates tokens: when `a` and `b` both lex, `a`, a space
/// and `b` lex to the tokens of `a` followed by those of `b` (a space
/// continues no identifier and is whitespace, as `char::is_alphanumeric`
/// and `char::is_whitespace` report it).
pub proof fn lemma_tokens_of_joined(a: Seq<char>, b: Seq<char>)
    requires
        is_whitespace_char(' '),
        !is_alphanumeric_char(' '),
        lex_spec(a) is Ok,
        lex_spec(b) is Ok,
    ensures
        lex_spec(a + " "@ + b) == Ok::<Seq<TokenModel>, ErrorModel>(lex_spec(a)->Ok_0 + lex_spec(b)->Ok_0),
{
    reveal_strlit(" ");
    let cs = a + " "@ + b;
    assert forall|k: int| 0 <= k < a.len() implies #[trigger] cs[k] == a[k] by {}
    assert(cs[a.len() as int] == ' ');
    lemma_lex_prefix(a, cs, 0);
    let p = a.len() + 1int;
    assert forall|k: int| 0 <= k < b.len() implies #[trigger] cs[p + k] == b[k] by {}
    lemma_lex_shift(b, cs, p, 0);
}

fn word_to_token(word: String) -> (t: Token)
    ensures
        t@ == word_token(word@),
{
    if same_as_str(&word, "skip") {
        Token::Skip
    } else if same_as_str(&word, "if") {
        Token::If
    } else if same_as_str(&word, "then") {
        Token::Then
    } else if same_as_str(&word, "else") {
        Token::Else
    } else if same_as_str(&word, "while") {
        Token::While
    } else if same_as_str(&word, "do") {
        Token::Do
    } else if same_as_str(&word, "true") {
        Token::True
    } else if same_as_str(&word, "false") {
        Token::False
    } else if same_as_str(&word, "and") {
        Token::And
    } else if same_as_str(&word, "not") {
        Token::Not
    } else {
        Token::Identifier(word)
    }
}

/// Converts source text into a list of tokens.
pub fn tokenize(source: &str) -> (r: Result<Vec<Token>, EvalError>)
    ensures
        match r {
            Ok(ts) => lex_spec(source@) == Ok::<Seq<TokenModel>, ErrorModel>(tokens_view(ts@)),
            Err(e) => lex_spec(source@) == Err::<Seq<TokenModel>, ErrorModel>(e@),
        },
{
    let chars = chars_of(source);
    let ghost cs = chars@;
    let mut tokens: Vec<Token> = Vec::new();
    let mut i: usize = 0;
    while i < chars.len()
        invariant
            cs == chars@,
            cs == source@,
            i <= cs.len(),
            lex_spec(cs) == prepend_tokens(tokens_view(tokens@), lex_from(cs, i as int)),
        decreases cs.len() - i,
    {
        let current = chars[i];
        if char_is_whitespace(current) {
            i = i + 1;
            continue;
        }
        let ghost before = tokens_view(tokens@);
        if char_is_alphabetic(current) {
            let start = i;
            let end = scan_ident_end(&chars, i + 1);
            let word = string_of(&chars, start, end);
            let tok = word_to_token(word);
            proof {
                assert(lex_from(cs, start as int) == cons_token(tok@, lex_from(cs, end as int)));
                lemma_prepend_cons(before, tok@, lex_from(cs, end as int));
            }
            tokens.push(tok);
            i = end;
            assert(tokens_view(tokens@) =~= before + seq![tok@]);
            continue;
        }
        if char_is_digit(current) {
            let start = i;
            let end = scan_digits_end(&chars, i + 1);
            proof {
                lemma_digits_end_bounds(cs, start as int + 1);
            }
            match digits_to_i64(&chars, start, end) {
                Some(value) => {
                    proof {
                        assert(lex_from(cs, start as int) == cons_token(TokenModel::Number(value), lex_from(cs, end as int)));
                        lemma_prepend_cons(before, TokenModel::Number(value), lex_from(cs, end as int));
                    }
                    tokens.push(Token::Number(value));
                    i = end;
                    assert(tokens_view(tokens@) =~= before + seq![TokenModel::Number(value)]);
                    continue;
                },
                None => {
                    let mut m = text("invalid integer literal '");
                    let digits = string_of(&chars, start, end);
                    push_text(&mut m, digits.as_str());
                    push_text(&mut m, "'");
                    return Err(EvalError::ParseError(m));
                },
            }
        }
        let (tok, width) = if current == ':' {
            if i + 1 < chars.len() && chars[i + 1] == '=' {
                (Token::Assign, 2)
            } else {
                return Err(EvalError::ParseError(text("expected '=' after ':' to form ':='")));
            }
        } else if current == ';' {
            (Token::Semicolon, 1)
        } else if current == '(' {
            (Token::LParen, 1)
        } else if current == ')' {
            (Token::RParen, 1)
        } else if current == '+' {
            (Token::Plus, 1)
        } else if current == '-' {
            (Token::Minus, 1)
        } else if current == '*' {
            (Token::Star, 1)
        } else if current == '<' {
            (Token::Less, 1)
        } else {
            let mut m = text("unexpected character '");
            push_char(&mut m, current);
            push_text(&mut m, "'");
            assert(m@ =~= "unexpected character '"@ + seq![current] + "'"@);
            return Err(EvalError::ParseError(m));
        };
        let ghost t = tok@;
        proof {
            assert(symbol_at(cs, i as int) == Ok::<(TokenModel, int), ErrorModel>((t, i + width)));
            assert(lex_from(cs, i as int) == cons_token(t, lex_from(cs, i + width)));
            lemma_prepend_cons(before, t, lex_from(cs, i + width));
        }
        tokens.push(tok);
        i = i + width;
        assert(tokens_view(tokens@) =~= before + seq![t]);
    }
    assert(tokens_view(tokens@) + seq![] =~= tokens_view(tokens@));
    Ok(tokens)
}

impl Clone for Token {
    fn clone(&self) -> (r: Token)
        ensures
            r == *self,
    {
        self.copy()
    }
}

} // verus!
