//! Where a failed parse is reported, and the text that reports it.

use vstd::prelude::*;
use vstd::string::StringExecFns;
use colored::Colorize;
use crate::ast::{Token, TokenType, TokenView};
use crate::grammar::{Failure, ParseErrorKind};

verus! {

/// A stretch of the input line: `len` character offsets from `start` on.
#[derive(Debug, Clone, Copy, PartialEq, Eq, Structural)]
pub struct Span {
    pub start: usize,
    pub len: usize,
}

/// A failed parse: the reason and the stretch of the line it is reported at.
#[derive(Debug, Clone, Copy, PartialEq, Eq, Structural)]
pub struct ParseError {
    pub kind: ParseErrorKind,
    pub span: Span,
}

/// The offset at which `token` is reported in a line of `line_len`
/// characters: its own start, or the offset just past the line for the
/// token that stands for "no token".
pub open spec fn marker_start(token: TokenView, line_len: nat) -> nat {
    if token.kind == TokenType::Null {
        line_len
    } else {
        token.start
    }
}

/// The number of offsets that the report of `token` covers: those of its
/// span, none where the span runs backwards, and one for the token that
/// stands for "no token".
pub open spec fn marker_len(token: TokenView) -> nat {
    if token.kind == TokenType::Null {
        1
    } else if token.end >= token.start {
        (token.end - token.start) as nat
    } else {
        0
    }
}

/// `e` is the report of the failure `f` in a line of `line_len` characters.
pub open spec fn reports(e: ParseError, f: Failure, line_len: nat) -> bool {
    &&& e.kind == f.kind
    &&& e.span.start == marker_start(f.token, line_len)
    &&& e.span.len == marker_len(f.token)
}

/// The stretch of `line` at which `tk` is reported.
pub fn locate(tk: &Token, line: &str) -> (span: Span)
    ensures
        span.start == marker_start(tk@, line@.len()),
        span.len == marker_len(tk@),
{
    if tk.typing == TokenType::Null {
        Span { start: line.unicode_len(), len: 1 }
    } else if tk.loc.1 >= tk.loc.0 {
        Span { start: tk.loc.0, len: tk.loc.1 - tk.loc.0 }
    } else {
        Span { start: tk.loc.0, len: 0 }
    }
}

/// `piece` written `n` times.
pub open spec fn repeated(piece: Seq<char>, n: nat) -> Seq<char>
    decreases n,
{
    if n == 0 {
        Seq::empty()
    } else {
        repeated(piece, (n - 1) as nat) + piece
    }
}

/// The report of a failure at `len` offsets from `start` on in `line`: an
/// empty line, the line itself, then under it `start` spaces, `len` times
/// `caret`, a space and `label`, and an empty line.
pub open spec fn diagnostic_text(
    line: Seq<char>,
    start: nat,
    len: nat,
    caret: Seq<char>,
    label: Seq<char>,
) -> Seq<char> {
    seq!['\n'] + line + seq!['\n'] + repeated(seq![' '], start) + repeated(caret, len) + seq![' ']
        + label + seq!['\n', '\n']
}

/// The sequence that switches a terminal to bold red.
pub open spec fn style_on() -> Seq<char> {
    seq!['\x1b', '[', '1', ';', '3', '1', 'm']
}

/// The sequence that switches a terminal back to its plain style.
pub open spec fn style_off() -> Seq<char> {
    seq!['\x1b', '[', '0', 'm']
}

/// `out` is `plain` in bold red: `plain` between the two switching
/// sequences, or `plain` alone where colours are turned off.
pub open spec fn styled(plain: Seq<char>, out: Seq<char>) -> bool {
    out == plain || out == style_on() + plain + style_off()
}

/// `text` as `colored` writes it in bold red.
///
/// Calls `Colorize::red` and `Colorize::bold` of `colored` and formats the
/// result through its `Display`. Whether `colored` colours at all is decided
/// outside this library (by `NO_COLOR` and the like, and by the override
/// switch of `colored`), so the contract states both outcomes: the text as
/// it is, or the text between `ESC[1;31m` and `ESC[0m`. `colored` repeats
/// the style after every reset sequence inside the text; a text without the
/// escape character holds none. Nothing of this is proved here.
#[verifier::external_body]
fn red_bold(text: &str) -> (out: String)
    requires
        !text@.contains('\x1b'),
    ensures
        styled(text@, out@),
{
    text.red().bold().to_string()
}

/// Appends `piece` to `out` `n` times.
fn append_repeated(out: &mut String, piece: &str, n: usize)
    ensures
        final(out)@ == old(out)@ + repeated(piece@, n as nat),
{
    let mut i: usize = 0;
    assert(out@ =~= old(out)@ + repeated(piece@, 0));
    while i < n
        invariant
            i <= n,
            out@ == old(out)@ + repeated(piece@, i as nat),
        decreases n - i,
    {
        out.append(piece);
        i = i + 1;
        assert(out@ =~= old(out)@ + repeated(piece@, i as nat));
    }
}

/// Lays out the report of a failure at `span` in `line`, with `caret` as
/// the mark under each offset and `label` behind the marks.
pub fn layout(line: &str, span: Span, caret: &str, label: &str) -> (out: String)
    ensures
        out@ == diagnostic_text(line@, span.start as nat, span.len as nat, caret@, label@),
{
    proof {
        reveal_strlit("\n");
        reveal_strlit(" ");
        assert("\n"@ =~= seq!['\n']);
        assert(" "@ =~= seq![' ']);
    }
    let mut out = String::new();
    out.append("\n");
    out.append(line);
    out.append("\n");
    append_repeated(&mut out, " ", span.start);
    append_repeated(&mut out, caret, span.len);
    out.append(" ");
    out.append(label);
    let ghost body = out@;
    assert(body =~= seq!['\n'] + line@ + seq!['\n'] + repeated(seq![' '], span.start as nat)
        + repeated(caret@, span.len as nat) + seq![' '] + label@);
    out.append("\n");
    out.append("\n");
    assert(out@ =~= body + seq!['\n', '\n']);
    out
}

/// The report of a failure at `span` in `line`: a `^` under each offset of
/// the span and the word `ERROR` behind them, both in bold red.
pub fn diagnostic(line: &str, span: Span) -> (out: String)
    ensures
        exists|caret: Seq<char>, label: Seq<char>|
            styled(seq!['^'], caret) && styled(seq!['E', 'R', 'R', 'O', 'R'], label) && out@
                == #[trigger] diagnostic_text(
                line@,
                span.start as nat,
                span.len as nat,
                caret,
                label,
            ),
{
    proof {
        reveal_strlit("^");
        reveal_strlit("ERROR");
        assert("^"@ =~= seq!['^']);
        assert("ERROR"@ =~= seq!['E', 'R', 'R', 'O', 'R']);
    }
    let caret = red_bold("^");
    let label = red_bold("ERROR");
    layout(line, span, caret.as_str(), label.as_str())
}

} // verus!
