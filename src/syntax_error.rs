//! Syntax errors, and the line on which a position lies.
use vstd::prelude::*;
use vstd::string::{StringExecFns, StringSliceAdditionalSpecFns};

use crate::lexer::{NEWLINE, RETURN};
use crate::span::Span;

verus! {

/// A problem found while parsing, with the source range it concerns.
#[derive(Debug)]
pub struct SyntaxError {
    pub span: Span,
    pub message: String,
}

/// What a syntax error says, with its message as characters.
pub struct Diagnostic {
    pub span: Span,
    pub message: Seq<char>,
}

impl SyntaxError {
    pub open spec fn view(&self) -> Diagnostic {
        Diagnostic { span: self.span, message: self.message@ }
    }

    pub fn new(span: Span, message: String) -> (r: SyntaxError)
        ensures
            r.span == span,
            r.message@ == message@,
    {
        SyntaxError { span, message }
    }
}

/// The views of a list of errors.
pub open spec fn diagnostics(errors: Seq<SyntaxError>) -> Seq<Diagnostic> {
    errors.map_values(|e: SyntaxError| e@)
}

/// `a`, then `b`, then `c`, as one string.
pub fn concat3(a: &str, b: &str, c: &str) -> (r: String)
    ensures
        r@ == a@ + b@ + c@,
{
    let mut s = a.to_owned();
    s.append(b);
    s.append(c);
    s
}


/// A line break starts at `i`: a `\r` (alone or before `\n`), or a `\n`
/// that no `\r` precedes.
pub open spec fn break_at(b: Seq<u8>, i: int) -> bool {
    b[i] == RETURN || (b[i] == NEWLINE && !(i > 0 && b[i - 1] == RETURN))
}

/// How many line breaks start before position `i`.
pub open spec fn breaks_before(b: Seq<u8>, i: int) -> nat
    decreases i,
{
    if i <= 0 {
        0
    } else {
        breaks_before(b, i - 1) + if break_at(b, i - 1) {
            1nat
        } else {
            0nat
        }
    }
}

proof fn lemma_breaks_bound(b: Seq<u8>, i: int)
    requires
        0 <= i,
    ensures
        breaks_before(b, i) <= i,
    decreases i,
{
    if i > 0 {
        lemma_breaks_bound(b, i - 1);
    }
}

/// The line, counted from 1, on which byte position `pos` of `source` lies;
/// a position past the end lies on the last line.
pub fn pos_to_line(pos: usize, source: &str) -> (r: usize)
    requires
        source.spec_bytes().len() < usize::MAX,
    ensures
        r == 1 + breaks_before(
            source.spec_bytes(),
            if pos < source.spec_bytes().len() {
                pos as int
            } else {
                source.spec_bytes().len() as int
            },
        ),
{
    let bytes = source.as_bytes();
    let end = if pos < bytes.len() {
        pos
    } else {
        bytes.len()
    };
    let mut line: usize = 1;
    let mut i: usize = 0;
    while i < end
        invariant
            end <= bytes@.len() < usize::MAX,
            i <= end,
            line == 1 + breaks_before(bytes@, i as int),
        decreases end - i,
    {
        proof {
            lemma_breaks_bound(bytes@, i as int);
        }
        let c = bytes[i];
        if c == RETURN || (c == NEWLINE && !(i > 0 && bytes[i - 1] == RETURN)) {
            line = line + 1;
        }
        i = i + 1;
    }
    line
}

} // verus!
