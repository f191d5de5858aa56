//! The lexer: one forward scan that cuts the input into tokens.
//!
//! The scan is modelled by [`feed`], which says what one character does to
//! the tokens found so far, and [`lex`], which feeds a whole input from left
//! to right. [`Lexer::new`] computes exactly `lex` of its line.

use vstd::prelude::*;
use crate::ast::{Lexer, Token, TokenType, TokenView};
use crate::lexer_laws::{all_fit, lemma_scan_fits, lemma_scan_spans, spans_in_order};
use crate::text::{chars_of, is_char};

verus! {

pub open spec fn is_letter(c: char) -> bool {
    ('a' <= c && c <= 'z') || ('A' <= c && c <= 'Z')
}

pub open spec fn is_digit(c: char) -> bool {
    '0' <= c && c <= '9'
}

/// The class of the newest token, `Null` where there is none yet.
pub open spec fn last_kind(tokens: Seq<TokenView>) -> TokenType {
    if tokens.len() == 0 {
        TokenType::Null
    } else {
        tokens.last().kind
    }
}

/// The text of the newest token, empty where there is none yet.
pub open spec fn last_text(tokens: Seq<TokenView>) -> Seq<char> {
    if tokens.len() == 0 {
        Seq::empty()
    } else {
        tokens.last().text
    }
}

/// A string literal is open until a second quote has been added to it.
pub open spec fn in_literal(tokens: Seq<TokenView>) -> bool {
    last_kind(tokens) == TokenType::StringVar && (last_text(tokens).len() == 1 || last_text(
        tokens,
    ).last() != '"')
}

/// A sign is a prefix operator at the start and after an operator or an
/// opening parenthesis.
pub open spec fn sign_is_prefix(before: TokenType) -> bool {
    before == TokenType::UnaryOper || before == TokenType::BinaryOper || before
        == TokenType::OpenParen || before == TokenType::Null
}

/// The texts that a following `=` turns into a comparison.
pub open spec fn joins_equals(text: Seq<char>) -> bool {
    text == seq!['>'] || text == seq!['='] || text == seq!['<'] || text == seq!['!']
}

/// The newest token takes one more character.
pub open spec fn grow(tokens: Seq<TokenView>, c: char) -> Seq<TokenView> {
    let last = tokens.last();
    tokens.drop_last().push(
        TokenView { kind: last.kind, text: last.text.push(c), start: last.start, end: last.end + 1 },
    )
}

/// The newest token changes its class.
pub open spec fn retag(tokens: Seq<TokenView>, kind: TokenType) -> Seq<TokenView> {
    let last = tokens.last();
    tokens.drop_last().push(
        TokenView { kind: kind, text: last.text, start: last.start, end: last.end },
    )
}

/// A new token of one character begins at offset `at`.
pub open spec fn begin(tokens: Seq<TokenView>, kind: TokenType, c: char, at: nat) -> Seq<
    TokenView,
> {
    tokens.push(TokenView { kind: kind, text: seq![c], start: at, end: at + 1 })
}

/// What the character `c`, read at offset `at`, does to the tokens found so far.
pub open spec fn feed(tokens: Seq<TokenView>, c: char, at: nat) -> Seq<TokenView> {
    let before = last_kind(tokens);
    if in_literal(tokens) {
        grow(tokens, c)
    } else if is_letter(c) {
        if before == TokenType::Identifier {
            grow(tokens, c)
        } else {
            begin(tokens, TokenType::Identifier, c, at)
        }
    } else if is_digit(c) || c == '.' {
        if before == TokenType::Identifier || before == TokenType::Numerical {
            grow(tokens, c)
        } else {
            begin(tokens, TokenType::Numerical, c, at)
        }
    } else if c == '=' {
        if joins_equals(last_text(tokens)) {
            grow(retag(tokens, TokenType::BinaryOper), c)
        } else {
            begin(tokens, TokenType::BinaryOper, c, at)
        }
    } else if c == '|' || c == '&' {
        if last_text(tokens) == seq![c] {
            grow(retag(tokens, TokenType::BinaryOper), c)
        } else {
            begin(tokens, TokenType::UnaryOper, c, at)
        }
    } else if c == '+' || c == '-' {
        if sign_is_prefix(before) {
            begin(tokens, TokenType::UnaryOper, c, at)
        } else {
            begin(tokens, TokenType::BinaryOper, c, at)
        }
    } else if c == '"' {
        begin(tokens, TokenType::StringVar, c, at)
    } else if c == '*' || c == '/' || c == '>' || c == '<' || c == '%' {
        begin(tokens, TokenType::BinaryOper, c, at)
    } else if c == '(' {
        if before == TokenType::Identifier {
            begin(retag(tokens, TokenType::FuncCall), TokenType::OpenParen, c, at)
        } else {
            begin(tokens, TokenType::OpenParen, c, at)
        }
    } else if c == ')' {
        begin(tokens, TokenType::CloseParen, c, at)
    } else if c == ',' {
        begin(tokens, TokenType::ParamSplit, c, at)
    } else if c == '!' || c == '~' || c == '^' {
        begin(tokens, TokenType::UnaryOper, c, at)
    } else {
        tokens
    }
}

/// The tokens found in the first `n` characters of `input`.
pub open spec fn scan(input: Seq<char>, n: nat) -> Seq<TokenView>
    decreases n,
{
    if n == 0 {
        Seq::empty()
    } else {
        feed(scan(input, (n - 1) as nat), input[n - 1], (n - 1) as nat)
    }
}

/// The tokens of `input`, in the order of the text.
pub open spec fn lex(input: Seq<char>) -> Seq<TokenView> {
    scan(input, input.len())
}

/// The values of a sequence of tokens, in order.
pub open spec fn token_views(tokens: Seq<Token>) -> Seq<TokenView> {
    tokens.map_values(|t: Token| t@)
}

impl Token {
    /// An empty token of class `t` that begins at offset `s`.
    pub fn new(t: TokenType, s: usize) -> (tk: Token)
        ensures
            tk@ == (TokenView { kind: t, text: Seq::empty(), start: s as nat, end: s as nat }),
    {
        Token { typing: t, value: String::new(), loc: (s, s) }
    }

    /// Appends `c` to the text and moves the end of the span one offset on.
    pub fn push(&mut self, c: char)
        requires
            old(self).loc.1 < usize::MAX,
        ensures
            final(self)@ == (TokenView {
                kind: old(self)@.kind,
                text: old(self)@.text.push(c),
                start: old(self)@.start,
                end: old(self)@.end + 1,
            }),
    {
        self.value.push(c);
        self.loc.1 = self.loc.1 + 1;
    }

    /// Changes the class and nothing else.
    pub fn update(&mut self, t: TokenType)
        ensures
            final(self)@ == (TokenView {
                kind: t,
                text: old(self)@.text,
                start: old(self)@.start,
                end: old(self)@.end,
            }),
    {
        self.typing = t;
    }

    /// The token that stands for "no token": class `Null`, no text, offset 0.
    pub fn null() -> (tk: Token)
        ensures
            tk@ == TokenView::null(),
    {
        Token::new(TokenType::Null, 0)
    }
}

/// The class of the newest token, `Null` where there is none.
fn newest_kind(tokens: &Vec<Token>) -> (kind: TokenType)
    ensures
        kind == last_kind(token_views(tokens@)),
{
    if tokens.len() == 0 {
        TokenType::Null
    } else {
        tokens[tokens.len() - 1].typing
    }
}

/// Whether the text of the newest token is the one character `c`.
fn newest_is_char(tokens: &Vec<Token>, c: char) -> (yes: bool)
    ensures
        yes == (last_text(token_views(tokens@)) == seq![c]),
        yes ==> tokens@.len() > 0,
{
    assert(seq![c].len() == 1);
    if tokens.len() == 0 {
        false
    } else {
        is_char(tokens[tokens.len() - 1].value.as_str(), c)
    }
}

/// Adds `c` to the newest token.
fn grow_newest(tokens: &mut Vec<Token>, c: char)
    requires
        old(tokens)@.len() > 0,
        old(tokens)@.last().loc.1 < usize::MAX,
    ensures
        token_views(final(tokens)@) == grow(token_views(old(tokens)@), c),
{
    let mut newest = tokens.pop().unwrap();
    newest.push(c);
    tokens.push(newest);
    assert(token_views(tokens@) =~= grow(token_views(old(tokens)@), c));
}

/// Gives the newest token the class `kind`.
fn retag_newest(tokens: &mut Vec<Token>, kind: TokenType)
    requires
        old(tokens)@.len() > 0,
    ensures
        token_views(final(tokens)@) == retag(token_views(old(tokens)@), kind),
        final(tokens)@.len() == old(tokens)@.len(),
        final(tokens)@.last().loc == old(tokens)@.last().loc,
{
    let mut newest = tokens.pop().unwrap();
    newest.update(kind);
    tokens.push(newest);
    assert(token_views(tokens@) =~= retag(token_views(old(tokens)@), kind));
}

/// Starts a token of class `kind` with the character `c` read at offset `at`.
fn begin_token(tokens: &mut Vec<Token>, kind: TokenType, c: char, at: usize)
    requires
        at < usize::MAX,
    ensures
        token_views(final(tokens)@) == begin(token_views(old(tokens)@), kind, c, at as nat),
{
    let mut fresh = Token::new(kind, at);
    fresh.push(c);
    tokens.push(fresh);
    assert(token_views(tokens@) =~= begin(token_views(old(tokens)@), kind, c, at as nat));
}

/// Cuts `line` into its tokens, in the order of the text.
pub fn tokenize(line: &String) -> (tokens: Vec<Token>)
    ensures
        token_views(tokens@) == lex(line@),
{
    let chars = chars_of(line.as_str());
    let mut result: Vec<Token> = Vec::new();
    let mut literal_open = false;
    let mut i: usize = 0;
    assert(token_views(result@) =~= scan(chars@, 0));
    while i < chars.len()
        invariant
            i <= chars.len(),
            chars@ == line@,
            token_views(result@) == scan(chars@, i as nat),
            literal_open == in_literal(scan(chars@, i as nat)),
        decreases chars.len() - i,
    {
        let c = chars[i];
        let ghost found = scan(chars@, i as nat);
        proof {
            lemma_scan_spans(chars@, i as nat);
            assert(scan(chars@, (i + 1) as nat) == feed(found, c, i as nat));
            if result@.len() > 0 {
                assert(token_views(result@).last() == result@.last()@);
                assert(found[found.len() - 1].end <= i);
            }
        }
        let before = newest_kind(&result);
        if literal_open {
            grow_newest(&mut result, c);
            literal_open = c != '"';
        } else if (c >= 'a' && c <= 'z') || (c >= 'A' && c <= 'Z') {
            if before == TokenType::Identifier {
                grow_newest(&mut result, c);
            } else {
                begin_token(&mut result, TokenType::Identifier, c, i);
            }
        } else if (c >= '0' && c <= '9') || c == '.' {
            if before == TokenType::Identifier || before == TokenType::Numerical {
                grow_newest(&mut result, c);
            } else {
                begin_token(&mut result, TokenType::Numerical, c, i);
            }
        } else if c == '=' {
            if newest_is_char(&result, '>') || newest_is_char(&result, '=') || newest_is_char(
                &result,
                '<',
            ) || newest_is_char(&result, '!') {
                retag_newest(&mut result, TokenType::BinaryOper);
                grow_newest(&mut result, c);
            } else {
                begin_token(&mut result, TokenType::BinaryOper, c, i);
            }
        } else if c == '|' || c == '&' {
            if newest_is_char(&result, c) {
                retag_newest(&mut result, TokenType::BinaryOper);
                grow_newest(&mut result, c);
            } else {
                begin_token(&mut result, TokenType::UnaryOper, c, i);
            }
        } else if c == '+' || c == '-' {
            if before == TokenType::UnaryOper || before == TokenType::BinaryOper || before
                == TokenType::OpenParen || before == TokenType::Null {
                begin_token(&mut result, TokenType::UnaryOper, c, i);
            } else {
                begin_token(&mut result, TokenType::BinaryOper, c, i);
            }
        } else if c == '"' {
            begin_token(&mut result, TokenType::StringVar, c, i);
            literal_open = true;
        } else if c == '*' || c == '/' || c == '>' || c == '<' || c == '%' {
            begin_token(&mut result, TokenType::BinaryOper, c, i);
        } else if c == '(' {
            if before == TokenType::Identifier {
                retag_newest(&mut result, TokenType::FuncCall);
            }
            begin_token(&mut result, TokenType::OpenParen, c, i);
        } else if c == ')' {
            begin_token(&mut result, TokenType::CloseParen, c, i);
        } else if c == ',' {
            begin_token(&mut result, TokenType::ParamSplit, c, i);
        } else if c == '!' || c == '~' || c == '^' {
            begin_token(&mut result, TokenType::UnaryOper, c, i);
        }
        assert(token_views(result@) == feed(found, c, i as nat));
        assert(literal_open == in_literal(feed(found, c, i as nat)));
        i = i + 1;
    }
    result
}

impl View for Lexer {
    type V = Seq<TokenView>;

    /// The queue, next token first.
    open spec fn view(&self) -> Seq<TokenView> {
        token_views(self.data@.reverse())
    }
}

/// The same tokens in the opposite order.
fn reversed(tokens: Vec<Token>) -> (out: Vec<Token>)
    ensures
        out@ == tokens@.reverse(),
{
    let mut rest = tokens;
    let mut out: Vec<Token> = Vec::new();
    while rest.len() > 0
        invariant
            rest@.len() <= tokens@.len(),
            out@.len() + rest@.len() == tokens@.len(),
            rest@ == tokens@.take(rest@.len() as int),
            forall|k: int| 0 <= k < out@.len() ==> out@[k] == tokens@[tokens@.len() - 1 - k],
        decreases rest@.len(),
    {
        let tk = rest.pop().unwrap();
        out.push(tk);
        assert(rest@ =~= tokens@.take(rest@.len() as int));
    }
    assert(out@ =~= tokens@.reverse());
    out
}

impl Lexer {
    /// Cuts `line` into tokens once and keeps them as a queue.
    pub fn new(line: String) -> (lexer: Lexer)
        ensures
            lexer.line == line,
            lexer@ == lex(line@),
            spans_in_order(lexer@, line@.len()),
            all_fit(lexer@),
    {
        let found = tokenize(&line);
        let ghost in_order = found@;
        let data = reversed(found);
        proof {
            assert(data@.reverse() =~= in_order);
            lemma_scan_spans(line@, line@.len());
            lemma_scan_fits(line@, line@.len());
        }
        Lexer { line, data }
    }

    /// Takes the token at the front of the queue, if there is one.
    pub fn next(&mut self) -> (front: Option<Token>)
        ensures
            final(self).line == old(self).line,
            old(self)@.len() == 0 ==> front is None && final(self)@ == old(self)@,
            old(self)@.len() > 0 ==> front is Some && front->0@ == old(self)@[0] && final(self)@
                == old(self)@.drop_first(),
    {
        let front = self.data.pop();
        proof {
            if old(self).data@.len() > 0 {
                assert(final(self)@ =~= old(self)@.drop_first());
            } else {
                assert(final(self)@ =~= old(self)@);
            }
        }
        front
    }

    /// Puts `tk` back at the front of the queue.
    pub fn push(&mut self, tk: Token)
        ensures
            final(self).line == old(self).line,
            final(self)@ == seq![tk@] + old(self)@,
    {
        self.data.push(tk);
        assert(final(self)@ =~= seq![tk@] + old(self)@);
    }

    /// A copy of the queue, next token first.
    pub fn tokens(&self) -> (list: Vec<Token>)
        ensures
            token_views(list@) == self@,
    {
        let mut list: Vec<Token> = Vec::new();
        let mut left: usize = self.data.len();
        while left > 0
            invariant
                left <= self.data@.len(),
                list@.len() + left == self.data@.len(),
                forall|k: int|
                    0 <= k < list@.len() ==> (#[trigger] list@[k])@ == self.data@[self.data@.len()
                        - 1 - k]@,
            decreases left,
        {
            left = left - 1;
            list.push(self.data[left].clone());
        }
        assert(token_views(list@) =~= self@);
        list
    }
}

} // verus!
