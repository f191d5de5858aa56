//! What holds of every token sequence that the scan produces.

use vstd::prelude::*;
use crate::ast::TokenView;
use crate::ast::TokenType;
use crate::lexer::{
    begin, feed, grow, in_literal, is_digit, is_letter, last_kind, last_text, lex, retag, scan,
};

verus! {

/// Every token covers at least one character and as many offsets as it has
/// characters, no token begins before the one in front of it has ended, and
/// none reaches past `bound`.
pub open spec fn spans_in_order(tokens: Seq<TokenView>, bound: nat) -> bool {
    &&& forall|k: int|
        0 <= k < tokens.len() ==> {
            &&& (#[trigger] tokens[k]).start < tokens[k].end
            &&& tokens[k].end <= bound
            &&& tokens[k].end - tokens[k].start == tokens[k].text.len()
        }
    &&& forall|j: int, k: int|
        0 <= j < k < tokens.len() ==> (#[trigger] tokens[j]).end <= (#[trigger] tokens[k]).start
}

proof fn lemma_begin_spans(tokens: Seq<TokenView>, kind: TokenType, c: char, at: nat)
    requires
        spans_in_order(tokens, at),
    ensures
        spans_in_order(begin(tokens, kind, c, at), at + 1),
{
    let after = begin(tokens, kind, c, at);
    assert forall|k: int| 0 <= k < after.len() implies {
        &&& (#[trigger] after[k]).start < after[k].end
        &&& after[k].end <= at + 1
        &&& after[k].end - after[k].start == after[k].text.len()
    } by {
        if k < tokens.len() {
            assert(after[k] == tokens[k]);
        }
    }
    assert forall|j: int, k: int| 0 <= j < k < after.len() implies (#[trigger] after[j]).end <= (
    #[trigger] after[k]).start by {
        assert(after[j] == tokens[j]);
        if k < tokens.len() {
            assert(after[k] == tokens[k]);
        }
    }
}

proof fn lemma_grow_spans(tokens: Seq<TokenView>, c: char, at: nat)
    requires
        tokens.len() > 0,
        spans_in_order(tokens, at),
    ensures
        spans_in_order(grow(tokens, c), at + 1),
{
    let after = grow(tokens, c);
    let n = tokens.len() - 1;
    assert(after.len() == tokens.len());
    assert(tokens[n].end <= at);
    assert forall|k: int| 0 <= k < after.len() implies {
        &&& (#[trigger] after[k]).start < after[k].end
        &&& after[k].end <= at + 1
        &&& after[k].end - after[k].start == after[k].text.len()
    } by {
        if k < n {
            assert(after[k] == tokens[k]);
        }
    }
    assert forall|j: int, k: int| 0 <= j < k < after.len() implies (#[trigger] after[j]).end <= (
    #[trigger] after[k]).start by {
        assert(after[j] == tokens[j]);
        assert(after[k].start == tokens[k].start);
    }
}

proof fn lemma_retag_spans(tokens: Seq<TokenView>, kind: TokenType, at: nat)
    requires
        tokens.len() > 0,
        spans_in_order(tokens, at),
    ensures
        spans_in_order(retag(tokens, kind), at),
{
    let after = retag(tokens, kind);
    let n = tokens.len() - 1;
    assert(after.len() == tokens.len());
    assert forall|k: int| 0 <= k < after.len() implies {
        &&& (#[trigger] after[k]).start < after[k].end
        &&& after[k].end <= at
        &&& after[k].end - after[k].start == after[k].text.len()
    } by {
        if k < n {
            assert(after[k] == tokens[k]);
        } else {
            assert(after[k].end == tokens[k].end);
        }
    }
    assert forall|j: int, k: int| 0 <= j < k < after.len() implies (#[trigger] after[j]).end <= (
    #[trigger] after[k]).start by {
        assert(after[j] == tokens[j]);
        assert(after[k].start == tokens[k].start);
    }
}

/// One more character, read at the bound, keeps the spans in order.
pub proof fn lemma_feed_spans(tokens: Seq<TokenView>, c: char, at: nat)
    requires
        spans_in_order(tokens, at),
    ensures
        spans_in_order(feed(tokens, c, at), at + 1),
{
    if tokens.len() > 0 {
        lemma_grow_spans(tokens, c, at);
        lemma_retag_spans(tokens, TokenType::BinaryOper, at);
        lemma_grow_spans(retag(tokens, TokenType::BinaryOper), c, at);
        lemma_retag_spans(tokens, TokenType::FuncCall, at);
        lemma_begin_spans(retag(tokens, TokenType::FuncCall), TokenType::OpenParen, c, at);
    }
    lemma_begin_spans(tokens, TokenType::Identifier, c, at);
    lemma_begin_spans(tokens, TokenType::Numerical, c, at);
    lemma_begin_spans(tokens, TokenType::BinaryOper, c, at);
    lemma_begin_spans(tokens, TokenType::UnaryOper, c, at);
    lemma_begin_spans(tokens, TokenType::StringVar, c, at);
    lemma_begin_spans(tokens, TokenType::OpenParen, c, at);
    lemma_begin_spans(tokens, TokenType::CloseParen, c, at);
    lemma_begin_spans(tokens, TokenType::ParamSplit, c, at);
    assert(in_literal(tokens) ==> tokens.len() > 0);
    assert(last_kind(tokens) == TokenType::Identifier ==> tokens.len() > 0);
    assert(last_kind(tokens) == TokenType::Numerical ==> tokens.len() > 0);
    assert(last_text(tokens).len() > 0 ==> tokens.len() > 0);
}

/// The spans of the tokens found in the first `n` characters are in order
/// and end within those characters.
pub proof fn lemma_scan_spans(input: Seq<char>, n: nat)
    ensures
        spans_in_order(scan(input, n), n),
    decreases n,
{
    if n > 0 {
        lemma_scan_spans(input, (n - 1) as nat);
        lemma_feed_spans(scan(input, (n - 1) as nat), input[n - 1], (n - 1) as nat);
    }
}

/// Token spans never overlap, never run backwards, and lie within the input.
pub proof fn lemma_lex_spans(input: Seq<char>)
    ensures
        spans_in_order(lex(input), input.len()),
{
    lemma_scan_spans(input, input.len());
}

/// The texts of `tokens`, one after the other.
pub open spec fn joined(tokens: Seq<TokenView>) -> Seq<char>
    decreases tokens.len(),
{
    if tokens.len() == 0 {
        Seq::empty()
    } else {
        joined(tokens.drop_last()) + tokens.last().text
    }
}

/// `part` can be had from `whole` by leaving characters out.
pub open spec fn is_subsequence(part: Seq<char>, whole: Seq<char>) -> bool
    decreases whole.len(),
{
    if part.len() == 0 {
        true
    } else if whole.len() == 0 {
        false
    } else if part.last() == whole.last() && is_subsequence(part.drop_last(), whole.drop_last()) {
        true
    } else {
        is_subsequence(part, whole.drop_last())
    }
}

/// The class and the text of each token, without the spans.
pub open spec fn plain(tokens: Seq<TokenView>) -> Seq<(TokenType, Seq<char>)> {
    tokens.map_values(|t: TokenView| (t.kind, t.text))
}

proof fn lemma_joined_begin(tokens: Seq<TokenView>, kind: TokenType, c: char, at: nat)
    ensures
        joined(begin(tokens, kind, c, at)) == joined(tokens) + seq![c],
{
    assert(begin(tokens, kind, c, at).drop_last() =~= tokens);
}

proof fn lemma_joined_grow(tokens: Seq<TokenView>, c: char)
    requires
        tokens.len() > 0,
    ensures
        joined(grow(tokens, c)) == joined(tokens) + seq![c],
{
    assert(grow(tokens, c).drop_last() =~= tokens.drop_last());
    assert(joined(grow(tokens, c)) == joined(tokens.drop_last()) + tokens.last().text.push(c));
    assert(joined(tokens.drop_last()) + tokens.last().text.push(c) =~= joined(tokens) + seq![c]);
}

proof fn lemma_joined_retag(tokens: Seq<TokenView>, kind: TokenType)
    requires
        tokens.len() > 0,
    ensures
        joined(retag(tokens, kind)) == joined(tokens),
{
    assert(retag(tokens, kind).drop_last() =~= tokens.drop_last());
}

/// A character is either dropped, and then nothing changes, or it becomes
/// the last character of the joined texts.
pub proof fn lemma_feed_joined(tokens: Seq<TokenView>, c: char, at: nat)
    ensures
        feed(tokens, c, at) == tokens || joined(feed(tokens, c, at)) == joined(tokens) + seq![c],
{
    assert(seq![c].len() == 1);
    if tokens.len() > 0 {
        lemma_joined_grow(tokens, c);
        lemma_joined_retag(tokens, TokenType::BinaryOper);
        lemma_joined_grow(retag(tokens, TokenType::BinaryOper), c);
        lemma_joined_retag(tokens, TokenType::FuncCall);
        lemma_joined_begin(retag(tokens, TokenType::FuncCall), TokenType::OpenParen, c, at);
    }
    lemma_joined_begin(tokens, TokenType::Identifier, c, at);
    lemma_joined_begin(tokens, TokenType::Numerical, c, at);
    lemma_joined_begin(tokens, TokenType::BinaryOper, c, at);
    lemma_joined_begin(tokens, TokenType::UnaryOper, c, at);
    lemma_joined_begin(tokens, TokenType::StringVar, c, at);
    lemma_joined_begin(tokens, TokenType::OpenParen, c, at);
    lemma_joined_begin(tokens, TokenType::CloseParen, c, at);
    lemma_joined_begin(tokens, TokenType::ParamSplit, c, at);
}

/// The joined texts of the tokens found in the first `n` characters can be
/// had from those characters by leaving some out.
pub proof fn lemma_scan_texts(input: Seq<char>, n: nat)
    requires
        n <= input.len(),
    ensures
        is_subsequence(joined(scan(input, n)), input.take(n as int)),
    decreases n,
{
    if n > 0 {
        let before = scan(input, (n - 1) as nat);
        let c = input[n - 1];
        let whole = input.take(n as int);
        lemma_scan_texts(input, (n - 1) as nat);
        lemma_feed_joined(before, c, (n - 1) as nat);
        assert(whole.drop_last() =~= input.take(n - 1));
        assert(whole.last() == c);
        if feed(before, c, (n - 1) as nat) != before {
            assert((joined(before) + seq![c]).drop_last() =~= joined(before));
        }
    }
}

/// No token holds a character that the input does not hold: the texts of
/// the tokens, joined in order, are the input with some characters left out.
pub proof fn lemma_lex_texts(input: Seq<char>)
    ensures
        is_subsequence(joined(lex(input)), input),
{
    lemma_scan_texts(input, input.len());
    assert(input.take(input.len() as int) =~= input);
}

/// What was found in the first `n` characters does not depend on those
/// that follow.
pub proof fn lemma_scan_prefix(input: Seq<char>, more: Seq<char>, n: nat)
    requires
        n <= input.len(),
    ensures
        scan(input + more, n) == scan(input, n),
    decreases n,
{
    if n > 0 {
        lemma_scan_prefix(input, more, (n - 1) as nat);
        assert((input + more)[n - 1] == input[n - 1]);
    }
}

/// What a character does to the classes and texts depends on the classes
/// and texts alone, not on the offsets.
pub proof fn lemma_feed_plain(a: Seq<TokenView>, b: Seq<TokenView>, c: char, i: nat, j: nat)
    requires
        plain(a) == plain(b),
    ensures
        plain(feed(a, c, i)) == plain(feed(b, c, j)),
{
    assert(a.len() == plain(a).len());
    assert(b.len() == plain(b).len());
    assert forall|k: int| 0 <= k < a.len() implies a[k].kind == b[k].kind && a[k].text
        == b[k].text by {
        assert(plain(a)[k] == (a[k].kind, a[k].text));
        assert(plain(b)[k] == (b[k].kind, b[k].text));
    }
    assert(last_kind(a) == last_kind(b));
    assert(last_text(a) == last_text(b));
    assert(in_literal(a) == in_literal(b));
    if a.len() > 0 {
        assert(plain(grow(a, c)) =~= plain(grow(b, c)));
        assert(plain(grow(retag(a, TokenType::BinaryOper), c)) =~= plain(
            grow(retag(b, TokenType::BinaryOper), c),
        ));
        assert(plain(begin(retag(a, TokenType::FuncCall), TokenType::OpenParen, c, i)) =~= plain(
            begin(retag(b, TokenType::FuncCall), TokenType::OpenParen, c, j),
        ));
    }
    assert forall|kind: TokenType| plain(#[trigger] begin(a, kind, c, i)) == plain(
        begin(b, kind, c, j),
    ) by {
        assert(plain(begin(a, kind, c, i)) =~= plain(begin(b, kind, c, j)));
    }
    assert(begin(b, TokenType::Identifier, c, j).len() > 0);
}

/// Lexing the joined texts of what was found in the first `n` characters
/// finds the same classes and texts again.
pub proof fn lemma_scan_again(input: Seq<char>, n: nat)
    requires
        n <= input.len(),
    ensures
        plain(lex(joined(scan(input, n)))) == plain(scan(input, n)),
    decreases n,
{
    if n == 0 {
        assert(joined(scan(input, 0)) =~= Seq::<char>::empty());
    } else {
        let before = scan(input, (n - 1) as nat);
        let c = input[n - 1];
        let text = joined(before);
        lemma_scan_again(input, (n - 1) as nat);
        lemma_feed_joined(before, c, (n - 1) as nat);
        if feed(before, c, (n - 1) as nat) != before {
            let longer = text + seq![c];
            lemma_scan_prefix(text, seq![c], text.len());
            assert(longer[longer.len() - 1] == c);
            assert(scan(longer, longer.len()) == feed(scan(longer, text.len()), c, text.len()));
            lemma_feed_plain(scan(text, text.len()), before, c, text.len(), (n - 1) as nat);
        }
    }
}

/// Lexing the joined texts of the tokens of an input finds tokens of the
/// same classes and texts: nothing is added and nothing more is lost.
pub proof fn lemma_lex_again(input: Seq<char>)
    ensures
        plain(lex(joined(lex(input)))) == plain(lex(input)),
        joined(lex(joined(lex(input)))) == joined(lex(input)),
{
    lemma_scan_again(input, input.len());
    lemma_joined_plain(lex(joined(lex(input))), lex(input));
}

/// Tokens of the same classes and texts have the same joined text.
pub proof fn lemma_joined_plain(a: Seq<TokenView>, b: Seq<TokenView>)
    requires
        plain(a) == plain(b),
    ensures
        joined(a) == joined(b),
    decreases a.len(),
{
    assert(a.len() == plain(a).len());
    assert(b.len() == plain(b).len());
    if a.len() > 0 {
        assert(plain(a).last() == (a.last().kind, a.last().text));
        assert(plain(b).last() == (b.last().kind, b.last().text));
        assert(plain(a.drop_last()) =~= plain(a).drop_last());
        assert(plain(b.drop_last()) =~= plain(b).drop_last());
        lemma_joined_plain(a.drop_last(), b.drop_last());
    }
}

/// The characters that begin a prefix operator.
pub open spec fn begins_prefix(c: char) -> bool {
    c == '|' || c == '&' || c == '+' || c == '-' || c == '!' || c == '~' || c == '^'
}

/// The characters that begin an infix operator.
pub open spec fn begins_infix(c: char) -> bool {
    c == '=' || c == '>' || c == '<' || c == '!' || c == '|' || c == '&' || c == '+' || c == '-'
        || c == '*' || c == '/' || c == '%'
}

/// The class of a token goes with its first character: names and calls
/// begin with a letter, numbers with a digit or a dot, string literals with
/// a quote, and so on. No token is empty and none has the class `Null`.
pub open spec fn fits(t: TokenView) -> bool {
    &&& t.text.len() >= 1
    &&& match t.kind {
        TokenType::Identifier => is_letter(t.text[0]),
        TokenType::FuncCall => is_letter(t.text[0]),
        TokenType::Numerical => is_digit(t.text[0]) || t.text[0] == '.',
        TokenType::StringVar => t.text[0] == '"',
        TokenType::OpenParen => t.text[0] == '(',
        TokenType::CloseParen => t.text[0] == ')',
        TokenType::ParamSplit => t.text[0] == ',',
        TokenType::UnaryOper => begins_prefix(t.text[0]),
        TokenType::BinaryOper => begins_infix(t.text[0]),
        TokenType::Null => false,
    }
}

/// Every token of the sequence fits.
pub open spec fn all_fit(tokens: Seq<TokenView>) -> bool {
    forall|k: int| 0 <= k < tokens.len() ==> fits(#[trigger] tokens[k])
}

proof fn lemma_begin_fits(tokens: Seq<TokenView>, kind: TokenType, c: char, at: nat)
    requires
        all_fit(tokens),
        fits(TokenView { kind: kind, text: seq![c], start: at, end: at + 1 }),
    ensures
        all_fit(begin(tokens, kind, c, at)),
{
    let after = begin(tokens, kind, c, at);
    assert forall|k: int| 0 <= k < after.len() implies fits(#[trigger] after[k]) by {
        if k < tokens.len() {
            assert(after[k] == tokens[k]);
        }
    }
}

proof fn lemma_grow_fits(tokens: Seq<TokenView>, c: char)
    requires
        tokens.len() > 0,
        all_fit(tokens),
    ensures
        all_fit(grow(tokens, c)),
{
    let after = grow(tokens, c);
    let last = tokens.last();
    assert(fits(last));
    assert(last.text.push(c)[0] == last.text[0]);
    assert forall|k: int| 0 <= k < after.len() implies fits(#[trigger] after[k]) by {
        if k < tokens.len() - 1 {
            assert(after[k] == tokens[k]);
        }
    }
}

proof fn lemma_retag_fits(tokens: Seq<TokenView>, kind: TokenType)
    requires
        tokens.len() > 0,
        all_fit(tokens),
        fits(
            TokenView {
                kind: kind,
                text: tokens.last().text,
                start: tokens.last().start,
                end: tokens.last().end,
            },
        ),
    ensures
        all_fit(retag(tokens, kind)),
{
    let after = retag(tokens, kind);
    assert forall|k: int| 0 <= k < after.len() implies fits(#[trigger] after[k]) by {
        if k < tokens.len() - 1 {
            assert(after[k] == tokens[k]);
        }
    }
}

/// One more character keeps every class with its first character.
pub proof fn lemma_feed_fits(tokens: Seq<TokenView>, c: char, at: nat)
    requires
        all_fit(tokens),
    ensures
        all_fit(feed(tokens, c, at)),
{
    let one = seq![c];
    assert(one.len() == 1 && one[0] == c);
    if tokens.len() > 0 {
        let last = tokens.last();
        assert(fits(last));
        lemma_grow_fits(tokens, c);
        if joins_equals_or_same(last.text, c) {
            assert(last.text.len() == 1);
            assert(begins_infix(last.text[0]));
            lemma_retag_fits(tokens, TokenType::BinaryOper);
            lemma_grow_fits(retag(tokens, TokenType::BinaryOper), c);
        }
        if last.kind == TokenType::Identifier {
            lemma_retag_fits(tokens, TokenType::FuncCall);
            if c == '(' {
                lemma_begin_fits(
                    retag(tokens, TokenType::FuncCall),
                    TokenType::OpenParen,
                    c,
                    at,
                );
            }
        }
    }
    if is_letter(c) {
        lemma_begin_fits(tokens, TokenType::Identifier, c, at);
    }
    if is_digit(c) || c == '.' {
        lemma_begin_fits(tokens, TokenType::Numerical, c, at);
    }
    if begins_infix(c) {
        lemma_begin_fits(tokens, TokenType::BinaryOper, c, at);
    }
    if begins_prefix(c) {
        lemma_begin_fits(tokens, TokenType::UnaryOper, c, at);
    }
    if c == '"' {
        lemma_begin_fits(tokens, TokenType::StringVar, c, at);
    }
    if c == '(' {
        lemma_begin_fits(tokens, TokenType::OpenParen, c, at);
    }
    if c == ')' {
        lemma_begin_fits(tokens, TokenType::CloseParen, c, at);
    }
    if c == ',' {
        lemma_begin_fits(tokens, TokenType::ParamSplit, c, at);
    }
}

/// `text` is one of the single characters that `c` joins with: one that a
/// following `=` turns into a comparison, or `c` itself for `|` and `&`.
pub open spec fn joins_equals_or_same(text: Seq<char>, c: char) -> bool {
    (c == '=' && crate::lexer::joins_equals(text)) || ((c == '|' || c == '&') && text == seq![c])
}

/// Every token found in the first `n` characters fits.
pub proof fn lemma_scan_fits(input: Seq<char>, n: nat)
    ensures
        all_fit(scan(input, n)),
    decreases n,
{
    if n > 0 {
        lemma_scan_fits(input, (n - 1) as nat);
        lemma_feed_fits(scan(input, (n - 1) as nat), input[n - 1], (n - 1) as nat);
    }
}

/// The class of every token of an input goes with its first character; no
/// token is empty, and none has the class `Null`.
pub proof fn lemma_lex_fits(input: Seq<char>)
    ensures
        all_fit(lex(input)),
{
    lemma_scan_fits(input, input.len());
}

} // verus!
