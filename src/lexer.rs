//! The tokenizer. `next_token` defines it on the bytes of the source;
//! `Lexer` runs it, one token of lookahead at a time.
use vstd::prelude::*;
use vstd::string::StringSliceAdditionalSpecFns;
use vstd::utf8::*;

use crate::span::Span;
use crate::text::{at_boundary, chars_between, lemma_after_ascii, slice_text};

verus! {

/// The kinds of token the lexer produces.
#[derive(Clone, Copy, Debug, PartialEq, Eq, Structural)]
pub enum TokenKind {
    LAngle,
    LAngleSlash,
    RAngle,
    Name,
    Equals,
    AttrVal,
    UnterminatedAttrVal,
    OrphanHashes,
    Text,
    Eof,
}

/// Where the lexer stands: between tags (`Outside`) or within a tag's
/// brackets (`Inside`), each with the depth of the fence in force.
#[derive(Clone, Copy, Debug, PartialEq, Eq, Structural)]
pub enum LexerMode {
    Inside(usize),
    Outside(usize),
}

// ASCII bytes that the grammar gives a meaning to.
pub const SPACE: u8 = 32;
pub const TAB: u8 = 9;
pub const NEWLINE: u8 = 10;
pub const RETURN: u8 = 13;
pub const LOWER_A: u8 = 97;
pub const LOWER_Z: u8 = 122;
pub const UPPER_A: u8 = 65;
pub const UPPER_Z: u8 = 90;
pub const DIGIT_0: u8 = 48;
pub const DIGIT_9: u8 = 57;
pub const DOT: u8 = 46;
pub const UNDERSCORE: u8 = 95;
pub const HYPHEN: u8 = 45;
pub const HASH: u8 = 35;
pub const LT: u8 = 60;
pub const GT: u8 = 62;
pub const SLASH: u8 = 47;
pub const EQUALS: u8 = 61;
pub const QUOTE: u8 = 34;
pub const BACKSLASH: u8 = 92;

// ---------------------------------------------------------------------------
// The tokenizer as a function on bytes.

pub open spec fn is_space(c: u8) -> bool {
    c == SPACE || c == TAB || c == NEWLINE || c == RETURN
}

pub open spec fn is_name_start(c: u8) -> bool {
    (LOWER_A <= c <= LOWER_Z) || (UPPER_A <= c <= UPPER_Z)
}

pub open spec fn is_name_continue(c: u8) -> bool {
    is_name_start(c) || (DIGIT_0 <= c <= DIGIT_9) || c == DOT || c == UNDERSCORE || c == HYPHEN
}

/// The first position at or after `i` that holds no white space.
pub open spec fn space_end(b: Seq<u8>, i: int) -> int
    decreases b.len() - i,
{
    if 0 <= i < b.len() && is_space(b[i]) {
        space_end(b, i + 1)
    } else {
        i
    }
}

/// The first position at or after `i` that holds no name character.
pub open spec fn name_end(b: Seq<u8>, i: int) -> int
    decreases b.len() - i,
{
    if 0 <= i < b.len() && is_name_continue(b[i]) {
        name_end(b, i + 1)
    } else {
        i
    }
}

/// The first position at or after `i` that holds no `#`.
pub open spec fn hash_run_end(b: Seq<u8>, i: int) -> int
    decreases b.len() - i,
{
    if 0 <= i < b.len() && b[i] == HASH {
        hash_run_end(b, i + 1)
    } else {
        i
    }
}

/// Skips at most `n` of the `#` that start at `i`.
pub open spec fn fence_end(b: Seq<u8>, i: int, n: nat) -> int
    decreases n,
{
    if n > 0 && 0 <= i < b.len() && b[i] == HASH {
        fence_end(b, i + 1, (n - 1) as nat)
    } else {
        i
    }
}

/// Skips the continuation bytes that start at `i`.
pub open spec fn char_end(b: Seq<u8>, i: int) -> int
    decreases b.len() - i,
{
    if 0 <= i < b.len() && is_continuation_byte(b[i]) {
        char_end(b, i + 1)
    } else {
        i
    }
}

/// At `i` stands the sequence that ends text read under a fence of depth
/// `n`: a `<` when there is no fence, else `</` and `n` times `#`.
pub open spec fn closes_text(b: Seq<u8>, i: int, n: nat) -> bool {
    &&& 0 <= i < b.len()
    &&& b[i] == LT
    &&& n > 0 ==> {
        &&& i + 2 + n <= b.len()
        &&& b[i + 1] == SLASH
        &&& forall|k: int| i + 2 <= k < i + 2 + n ==> b[k] == HASH
    }
}

/// Where text that starts at `i` ends under a fence of depth `n`.
pub open spec fn text_end(b: Seq<u8>, i: int, n: nat) -> int
    decreases b.len() - i,
{
    if i < 0 || i >= b.len() || closes_text(b, i, n) {
        i
    } else {
        text_end(b, i + 1, n)
    }
}

/// Scans a quoted value from `i` (just past the opening quote). Returns
/// where the value ends and whether a closing quote ends it.
pub open spec fn value_end(b: Seq<u8>, i: int, escaped: bool) -> (int, bool)
    decreases b.len() - i,
{
    if i < 0 || i >= b.len() || b[i] == NEWLINE || b[i] == RETURN {
        (i, false)
    } else if b[i] == QUOTE && !escaped {
        (i, true)
    } else {
        value_end(b, i + 1, b[i] == BACKSLASH && !escaped)
    }
}

/// One step of the tokenizer: the token read from `pos` in `mode`, and the
/// state after it.
pub struct Lexed {
    pub kind: TokenKind,
    pub start: int,
    pub end: int,
    pub next_pos: int,
    pub next_mode: LexerMode,
}

pub open spec fn mode_rank(mode: LexerMode) -> int {
    match mode {
        LexerMode::Inside(_) => 0,
        LexerMode::Outside(_) => 1,
    }
}

pub open spec fn lexed(kind: TokenKind, start: int, end: int, next_pos: int, next_mode: LexerMode) -> Lexed {
    Lexed { kind, start, end, next_pos, next_mode }
}

/// The token that the lexer reads from `pos` in `mode`.
pub open spec fn next_token(b: Seq<u8>, pos: int, mode: LexerMode) -> Lexed
    decreases b.len() - pos, mode_rank(mode),
{
    if pos < 0 || pos > b.len() {
        // Not a position of the input.
        lexed(TokenKind::Eof, pos, pos, pos, mode)
    } else {
        match mode {
            LexerMode::Outside(n) => {
                let e = text_end(b, pos, n as nat);
                if e > pos {
                    lexed(TokenKind::Text, pos, e, e, LexerMode::Inside(n))
                } else {
                    next_token(b, pos, LexerMode::Inside(n))
                }
            },
            LexerMode::Inside(n) => {
                let q = space_end(b, pos);
                if q < pos || q >= b.len() {
                    lexed(TokenKind::Eof, b.len() as int, b.len() as int, b.len() as int, mode)
                } else if b[q] == LT {
                    if q + 1 < b.len() && b[q + 1] == SLASH {
                        let e = fence_end(b, q + 2, n as nat);
                        lexed(TokenKind::LAngleSlash, q, e, e, LexerMode::Inside(0))
                    } else {
                        lexed(TokenKind::LAngle, q, q + 1, q + 1, mode)
                    }
                } else if b[q] == GT {
                    lexed(TokenKind::RAngle, q, q + 1, q + 1, LexerMode::Outside(0))
                } else if b[q] == HASH {
                    let h = hash_run_end(b, q + 1);
                    if 0 <= h < b.len() && b[h] == GT && h - q <= usize::MAX {
                        lexed(TokenKind::RAngle, q, h + 1, h + 1, LexerMode::Outside((h - q) as usize))
                    } else {
                        lexed(TokenKind::OrphanHashes, q, h, h, mode)
                    }
                } else if b[q] == EQUALS {
                    lexed(TokenKind::Equals, q, q + 1, q + 1, mode)
                } else if b[q] == QUOTE {
                    let (e, closed) = value_end(b, q + 1, false);
                    if closed {
                        lexed(TokenKind::AttrVal, q + 1, e, e + 1, mode)
                    } else {
                        lexed(TokenKind::UnterminatedAttrVal, q + 1, e, e, mode)
                    }
                } else if is_name_start(b[q]) {
                    lexed(TokenKind::Name, q, name_end(b, q + 1), name_end(b, q + 1), mode)
                } else {
                    // The character is skipped whole and the lexer reads text
                    // again. (`lemma_next_token` shows that `skip` lies past
                    // `pos` and within the input.)
                    let skip = char_end(b, q + 1);
                    if skip <= pos || skip > b.len() {
                        lexed(TokenKind::Eof, pos, pos, pos, mode)
                    } else {
                        next_token(b, skip, LexerMode::Outside(0))
                    }
                }
            },
        }
    }
}

// ---------------------------------------------------------------------------
// Facts about the scans.

/// A scan from `i` that stops at `r` passed over ASCII bytes only.
pub open spec fn ascii_scan(b: Seq<u8>, i: int, r: int) -> bool {
    &&& i <= r <= b.len()
    &&& (r == i || b[r - 1] < 0x80)
}

pub proof fn lemma_space_end(b: Seq<u8>, i: int)
    requires
        0 <= i <= b.len(),
    ensures
        ascii_scan(b, i, space_end(b, i)),
        space_end(b, i) < b.len() ==> !is_space(b[space_end(b, i)]),
    decreases b.len() - i,
{
    if i < b.len() && is_space(b[i]) {
        lemma_space_end(b, i + 1);
    }
}

pub proof fn lemma_name_end(b: Seq<u8>, i: int)
    requires
        0 <= i <= b.len(),
    ensures
        ascii_scan(b, i, name_end(b, i)),
    decreases b.len() - i,
{
    if i < b.len() && is_name_continue(b[i]) {
        lemma_name_end(b, i + 1);
    }
}

pub proof fn lemma_hash_run_end(b: Seq<u8>, i: int)
    requires
        0 <= i <= b.len(),
    ensures
        ascii_scan(b, i, hash_run_end(b, i)),
    decreases b.len() - i,
{
    if i < b.len() && b[i] == HASH {
        lemma_hash_run_end(b, i + 1);
    }
}

pub proof fn lemma_fence_end(b: Seq<u8>, i: int, n: nat)
    requires
        0 <= i <= b.len(),
    ensures
        ascii_scan(b, i, fence_end(b, i, n)),
    decreases n,
{
    if n > 0 && i < b.len() && b[i] == HASH {
        lemma_fence_end(b, i + 1, (n - 1) as nat);
    }
}

pub proof fn lemma_char_end(b: Seq<u8>, i: int)
    requires
        0 <= i <= b.len(),
    ensures
        i <= char_end(b, i) <= b.len(),
        at_boundary(b, char_end(b, i)),
    decreases b.len() - i,
{
    if i < b.len() && is_continuation_byte(b[i]) {
        lemma_char_end(b, i + 1);
    }
}

pub proof fn lemma_text_end(b: Seq<u8>, i: int, n: nat)
    requires
        0 <= i <= b.len(),
    ensures
        i <= text_end(b, i, n) <= b.len(),
        text_end(b, i, n) == b.len() || b[text_end(b, i, n)] == LT,
    decreases b.len() - i,
{
    if !(i >= b.len() || closes_text(b, i, n)) {
        lemma_text_end(b, i + 1, n);
    }
}

pub proof fn lemma_value_end(b: Seq<u8>, i: int, escaped: bool)
    requires
        0 <= i <= b.len(),
    ensures
        i <= value_end(b, i, escaped).0 <= b.len(),
        value_end(b, i, escaped).1 ==> value_end(b, i, escaped).0 < b.len()
            && b[value_end(b, i, escaped).0] == QUOTE,
        !value_end(b, i, escaped).1 ==> value_end(b, i, escaped).0 == b.len()
            || b[value_end(b, i, escaped).0] == NEWLINE
            || b[value_end(b, i, escaped).0] == RETURN,
    decreases b.len() - i,
{
    if !(i >= b.len() || b[i] == NEWLINE || b[i] == RETURN) && !(b[i] == QUOTE && !escaped) {
        lemma_value_end(b, i + 1, b[i] == BACKSLASH && !escaped);
    }
}

/// Where an ASCII scan stops is a boundary, if where it started is one.
pub proof fn lemma_ascii_scan_boundary(b: Seq<u8>, i: int, r: int)
    requires
        valid_utf8(b),
        ascii_scan(b, i, r),
        at_boundary(b, i),
    ensures
        at_boundary(b, r),
{
    if r != i {
        lemma_after_ascii(b, r - 1);
    }
}

/// A position that holds an ASCII byte is a boundary, and so is the next one.
pub proof fn lemma_ascii_at(b: Seq<u8>, i: int)
    requires
        valid_utf8(b),
        0 <= i < b.len(),
        b[i] < 0x80,
    ensures
        at_boundary(b, i),
        at_boundary(b, i + 1),
{
    lemma_after_ascii(b, i);
}

/// What one step of the tokenizer guarantees: it moves forward, it stays
/// within the input, it stops at the end, and it keeps to character
/// boundaries.
pub proof fn lemma_next_token(b: Seq<u8>, pos: int, mode: LexerMode)
    requires
        0 <= pos <= b.len(),
    ensures
        ({
            let l = next_token(b, pos, mode);
            &&& pos <= l.start <= l.end <= l.next_pos <= b.len()
            &&& l.kind != TokenKind::Eof ==> l.next_pos > pos
            &&& l.kind == TokenKind::Eof ==> l.start == b.len() && l.next_pos == b.len()
                && l.next_mode is Inside && next_token(b, l.next_pos, l.next_mode) == l
            &&& valid_utf8(b) && at_boundary(b, pos) ==> at_boundary(b, l.start) && at_boundary(
                b,
                l.end,
            ) && at_boundary(b, l.next_pos)
        }),
    decreases b.len() - pos, mode_rank(mode),
{
    let l = next_token(b, pos, mode);
    match mode {
        LexerMode::Outside(n) => {
            lemma_text_end(b, pos, n as nat);
            let e = text_end(b, pos, n as nat);
            if e > pos {
                if valid_utf8(b) && e < b.len() {
                    lemma_ascii_at(b, e);
                }
            } else {
                lemma_next_token(b, pos, LexerMode::Inside(n));
            }
        },
        LexerMode::Inside(n) => {
            lemma_space_end(b, pos);
            let q = space_end(b, pos);
            if valid_utf8(b) && at_boundary(b, pos) {
                lemma_ascii_scan_boundary(b, pos, q);
            }
            if q >= b.len() {
                assert(next_token(b, l.next_pos, l.next_mode) == l) by {
                    lemma_space_end(b, b.len() as int);
                }
            } else if b[q] == LT {
                if valid_utf8(b) {
                    lemma_ascii_at(b, q);
                }
                if q + 1 < b.len() && b[q + 1] == SLASH {
                    lemma_fence_end(b, q + 2, n as nat);
                    if valid_utf8(b) {
                        lemma_ascii_at(b, q + 1);
                        lemma_ascii_scan_boundary(b, q + 2, fence_end(b, q + 2, n as nat));
                    }
                }
            } else if b[q] == GT || b[q] == EQUALS {
                if valid_utf8(b) {
                    lemma_ascii_at(b, q);
                }
            } else if b[q] == HASH {
                lemma_hash_run_end(b, q + 1);
                let h = hash_run_end(b, q + 1);
                if valid_utf8(b) {
                    lemma_ascii_at(b, q);
                    lemma_ascii_scan_boundary(b, q + 1, h);
                    if h < b.len() && b[h] == GT {
                        lemma_ascii_at(b, h);
                    }
                }
            } else if b[q] == QUOTE {
                lemma_value_end(b, q + 1, false);
                let (e, closed) = value_end(b, q + 1, false);
                if valid_utf8(b) {
                    lemma_ascii_at(b, q);
                    if e < b.len() {
                        lemma_ascii_at(b, e);
                    }
                }
            } else if is_name_start(b[q]) {
                lemma_name_end(b, q + 1);
                if valid_utf8(b) {
                    lemma_ascii_at(b, q);
                    lemma_ascii_scan_boundary(b, q + 1, name_end(b, q + 1));
                }
            } else {
                lemma_char_end(b, q + 1);
                let skip = char_end(b, q + 1);
                lemma_next_token(b, skip, LexerMode::Outside(0));
            }
        },
    }
}

// ---------------------------------------------------------------------------
// Tokens.

/// A token: its kind, its text, and where it stands in the source.
#[derive(Debug)]
pub struct Token {
    pub kind: TokenKind,
    pub text: String,
    pub span: Span,
}

impl Token {
    /// The token is the step `l` of the tokenizer on `b`.
    pub open spec fn is_lexed(&self, l: Lexed, b: Seq<u8>) -> bool {
        &&& self.kind == l.kind
        &&& self.span.start == l.start
        &&& self.span.end == l.end
        &&& self.text@ == chars_between(b, l.start, l.end)
    }

    pub fn start(&self) -> (r: usize)
        ensures
            r == self.span.start,
    {
        self.span.start
    }

    pub fn end(&self) -> (r: usize)
        ensures
            r == self.span.end,
    {
        self.span.end
    }

    fn new(kind: TokenKind, text: String, start: usize, end: usize) -> (r: Token)
        ensures
            r.kind == kind,
            r.text == text,
            r.span == (Span { start, end }),
    {
        Token { kind, text, span: Span::new(start, end) }
    }

    fn from_input(kind: TokenKind, input: &str, start: usize, end: usize) -> (r: Token)
        requires
            start <= end <= input.spec_bytes().len(),
            at_boundary(input.spec_bytes(), start as int),
            at_boundary(input.spec_bytes(), end as int),
        ensures
            r.kind == kind,
            r.span == (Span { start, end }),
            r.text@ == chars_between(input.spec_bytes(), start as int, end as int),
    {
        Token::new(kind, slice_text(input, start, end), start, end)
    }

    fn eof(pos: usize) -> (r: Token)
        ensures
            r.kind == TokenKind::Eof,
            r.span == (Span { start: pos, end: pos }),
            r.text@ == Seq::<char>::empty(),
    {
        Token::new(TokenKind::Eof, String::new(), pos, pos)
    }
}

pub fn is_whitespace(c: u8) -> (r: bool)
    ensures
        r == is_space(c),
{
    c == SPACE || c == TAB || c == NEWLINE || c == RETURN
}

pub fn is_name_start_byte(c: u8) -> (r: bool)
    ensures
        r == is_name_start(c),
{
    (LOWER_A <= c && c <= LOWER_Z) || (UPPER_A <= c && c <= UPPER_Z)
}

pub fn is_name_continue_byte(c: u8) -> (r: bool)
    ensures
        r == is_name_continue(c),
{
    is_name_start_byte(c) || (DIGIT_0 <= c && c <= DIGIT_9) || c == DOT || c == UNDERSCORE
        || c == HYPHEN
}

// ---------------------------------------------------------------------------
// The lexer.

/// A pull lexer over a source text with one token of lookahead.
pub struct Lexer<'a> {
    pub input: &'a str,
    bytes: &'a [u8],
    pos: usize,
    mode: LexerMode,
    buffer: Option<Token>,
    /// The state from which the next token is read: before the buffered
    /// token, if there is one.
    at: Ghost<(int, LexerMode)>,
}

impl<'a> Lexer<'a> {
    /// The bytes of the source text.
    pub closed spec fn source(&self) -> Seq<u8> {
        self.bytes@
    }

    /// The position from which the next token is read.
    pub closed spec fn pos(&self) -> int {
        self.at@.0
    }

    /// The mode in which the next token is read.
    pub closed spec fn mode(&self) -> LexerMode {
        self.at@.1
    }

    /// The next token, as the tokenizer defines it.
    pub open spec fn upcoming(&self) -> Lexed {
        next_token(self.source(), self.pos(), self.mode())
    }

    closed spec fn base(&self) -> bool {
        &&& self.bytes@ == self.input.spec_bytes()
        &&& valid_utf8(self.bytes@)
        &&& self.pos <= self.bytes@.len()
    }

    /// The raw state, with no token buffered.
    closed spec fn raw_inv(&self) -> bool {
        &&& self.base()
        &&& at_boundary(self.bytes@, self.pos as int)
    }

    pub closed spec fn inv(&self) -> bool {
        &&& self.raw_inv()
        &&& 0 <= self.at@.0 <= self.bytes@.len()
        &&& at_boundary(self.bytes@, self.at@.0)
        &&& match self.buffer {
            None => self.at@ == (self.pos as int, self.mode),
            Some(t) => {
                let l = next_token(self.bytes@, self.at@.0, self.at@.1);
                &&& t.is_lexed(l, self.bytes@)
                &&& l.next_pos == self.pos
                &&& l.next_mode == self.mode
            },
        }
    }

    pub open spec fn wf(&self) -> bool {
        &&& self.inv()
        &&& 0 <= self.pos() <= self.source().len()
    }

    /// A lexer at the start of `input`, between tags and with no fence.
    pub fn new(input: &'a str) -> (r: Lexer<'a>)
        ensures
            r.wf(),
            r.source() == input.spec_bytes(),
            r.pos() == 0,
            r.mode() == LexerMode::Outside(0),
    {
        proof {
            encode_utf8_valid_utf8(input@);
        }
        let bytes = input.as_bytes();
        Lexer {
            input,
            bytes,
            pos: 0,
            mode: LexerMode::Outside(0),
            buffer: None,
            at: Ghost((0, LexerMode::Outside(0))),
        }
    }

    /// The next token, left in place.
    pub fn peek(&mut self) -> (r: &Token)
        requires
            old(self).wf(),
        ensures
            final(self).wf(),
            final(self).source() == old(self).source(),
            final(self).pos() == old(self).pos(),
            final(self).mode() == old(self).mode(),
            r.is_lexed(old(self).upcoming(), old(self).source()),
    {
        if self.buffer.is_none() {
            let t = self.read_next();
            self.buffer = Some(t);
        }
        self.buffer.as_ref().unwrap()
    }

    /// The next token, consumed.
    pub fn pop(&mut self) -> (r: Token)
        requires
            old(self).wf(),
        ensures
            final(self).wf(),
            final(self).source() == old(self).source(),
            final(self).pos() == old(self).upcoming().next_pos,
            final(self).mode() == old(self).upcoming().next_mode,
            r.is_lexed(old(self).upcoming(), old(self).source()),
    {
        proof {
            lemma_next_token(self.bytes@, self.at@.0, self.at@.1);
        }
        let r = match self.buffer.take() {
            Some(t) => t,
            None => self.read_next(),
        };
        self.at = Ghost((self.pos as int, self.mode));
        r
    }

    fn read_next(&mut self) -> (r: Token)
        requires
            old(self).raw_inv(),
        ensures
            final(self).raw_inv(),
            final(self).input == old(self).input,
            final(self).bytes == old(self).bytes,
            final(self).buffer == old(self).buffer,
            final(self).at == old(self).at,
            ({
                let l = next_token(old(self).bytes@, old(self).pos as int, old(self).mode);
                &&& r.is_lexed(l, old(self).bytes@)
                &&& final(self).pos == l.next_pos
                &&& final(self).mode == l.next_mode
            }),
    {
        let ghost target = next_token(self.bytes@, self.pos as int, self.mode);
        loop
            invariant
                self.raw_inv(),
                self.input == old(self).input,
                self.bytes == old(self).bytes,
                self.buffer == old(self).buffer,
                self.at == old(self).at,
                next_token(self.bytes@, self.pos as int, self.mode) == target,
                target == next_token(old(self).bytes@, old(self).pos as int, old(self).mode),
            decreases self.bytes@.len() - self.pos, mode_rank(self.mode),
        {
            let found = match self.mode {
                LexerMode::Inside(n) => self.read_inside(n),
                LexerMode::Outside(n) => self.read_outside(n),
            };
            if let Some(t) = found {
                return t;
            }
        }
    }

    /// Reads text up to the sequence that ends it under a fence of depth
    /// `n`; `None` when that sequence comes at once. Either way the lexer
    /// is then inside a tag.
    fn read_outside(&mut self, n: usize) -> (r: Option<Token>)
        requires
            old(self).raw_inv(),
            old(self).mode == LexerMode::Outside(n),
        ensures
            final(self).raw_inv(),
            final(self).input == old(self).input,
            final(self).bytes == old(self).bytes,
            final(self).buffer == old(self).buffer,
            final(self).at == old(self).at,
            ({
                let b = old(self).bytes@;
                let l = next_token(b, old(self).pos as int, old(self).mode);
                match r {
                    Some(t) => {
                        &&& t.is_lexed(l, b)
                        &&& final(self).pos == l.next_pos
                        &&& final(self).mode == l.next_mode
                    },
                    None => {
                        &&& final(self).pos == old(self).pos
                        &&& final(self).mode == LexerMode::Inside(n)
                        &&& next_token(b, final(self).pos as int, final(self).mode) == l
                    },
                }
            }),
    {
        let start = self.pos;
        proof {
            lemma_text_end(self.bytes@, start as int, n as nat);
        }
        while self.pos < self.bytes.len() && !self.closes_text_at(self.pos, n)
            invariant
                self.base(),
                self.input == old(self).input,
                self.bytes == old(self).bytes,
                self.buffer == old(self).buffer,
                self.at == old(self).at,
                self.mode == old(self).mode,
                start <= self.pos <= self.bytes@.len(),
                text_end(self.bytes@, start as int, n as nat) == text_end(
                    self.bytes@,
                    self.pos as int,
                    n as nat,
                ),
            decreases self.bytes@.len() - self.pos,
        {
            self.pos = self.pos + 1;
            proof {
                // `pos` may now stand inside a character; it is a boundary
                // again once the scan stops.
                lemma_text_end(self.bytes@, self.pos as int, n as nat);
            }
        }
        proof {
            let b = self.bytes@;
            if self.pos < b.len() {
                lemma_ascii_at(b, self.pos as int);
            }
        }
        self.mode = LexerMode::Inside(n);
        if self.pos > start {
            Some(Token::from_input(TokenKind::Text, self.input, start, self.pos))
        } else {
            None
        }
    }

    /// Whether the text at `i` ends under a fence of depth `n`.
    fn closes_text_at(&self, i: usize, n: usize) -> (r: bool)
        requires
            self.base(),
            i < self.bytes@.len(),
        ensures
            r == closes_text(self.bytes@, i as int, n as nat),
    {
        if self.bytes[i] != LT {
            return false;
        }
        if n == 0 {
            return true;
        }
        let len = self.bytes.len();
        if n > len - i || len - i - n < 2 || self.bytes[i + 1] != SLASH {
            return false;
        }
        let mut k: usize = 0;
        while k < n
            invariant
                self.base(),
                i + 2 + n <= len == self.bytes@.len(),
                k <= n,
                forall|j: int| i + 2 <= j < i + 2 + k ==> self.bytes@[j] == HASH,
            decreases n - k,
        {
            if self.bytes[i + 2 + k] != HASH {
                return false;
            }
            k = k + 1;
        }
        true
    }


    /// Reads one token inside a tag. `None` when the next character has no
    /// meaning there: it is skipped and the lexer goes back to text.
    fn read_inside(&mut self, n: usize) -> (r: Option<Token>)
        requires
            old(self).raw_inv(),
            old(self).mode == LexerMode::Inside(n),
        ensures
            final(self).raw_inv(),
            final(self).input == old(self).input,
            final(self).bytes == old(self).bytes,
            final(self).buffer == old(self).buffer,
            final(self).at == old(self).at,
            ({
                let b = old(self).bytes@;
                let l = next_token(b, old(self).pos as int, old(self).mode);
                match r {
                    Some(t) => {
                        &&& t.is_lexed(l, b)
                        &&& final(self).pos == l.next_pos
                        &&& final(self).mode == l.next_mode
                    },
                    None => {
                        &&& final(self).pos > old(self).pos
                        &&& final(self).mode == LexerMode::Outside(0)
                        &&& next_token(b, final(self).pos as int, final(self).mode) == l
                    },
                }
            }),
    {
        let ghost b = self.bytes@;
        let ghost p0 = self.pos as int;
        self.skip_whitespace();
        let q = self.current_pos();
        proof {
            lemma_space_end(b, p0);
        }
        if q >= self.bytes.len() {
            return Some(Token::eof(q));
        }
        let c = self.bytes[q];
        proof {
            if c < 0x80 {
                lemma_ascii_at(b, q as int);
            }
        }
        self.pos = q + 1;
        let kind = if c == LT {
            self.read_langle(n)
        } else if c == GT {
            self.read_rangle(0)
        } else if c == HASH {
            self.read_hashes()
        } else if c == EQUALS {
            TokenKind::Equals
        } else if c == QUOTE {
            self.read_attr_val()
        } else if is_name_start_byte(c) {
            self.read_name()
        } else {
            proof {
                lemma_char_end(b, q + 1);
            }
            self.skip_continuation();
            self.mode = LexerMode::Outside(0);
            return None;
        };
        proof {
            lemma_next_token(b, p0, LexerMode::Inside(n));
            lemma_value_end(b, q + 1, false);
        }
        let mut start = q;
        let mut end = self.current_pos();
        if kind == TokenKind::AttrVal {
            start = start + 1;
            end = end - 1;
        } else if kind == TokenKind::UnterminatedAttrVal {
            start = start + 1;
        }
        Some(Token::from_input(kind, self.input, start, end))
    }

    /// After `<`: a closing `</` with the fence of depth `n`, or an opening `<`.
    fn read_langle(&mut self, n: usize) -> (r: TokenKind)
        requires
            old(self).raw_inv(),
            old(self).mode == LexerMode::Inside(n),
            1 <= old(self).pos,
            old(self).bytes@[old(self).pos - 1] == LT,
        ensures
            final(self).raw_inv(),
            final(self).input == old(self).input,
            final(self).bytes == old(self).bytes,
            final(self).buffer == old(self).buffer,
            final(self).at == old(self).at,
            ({
                let b = old(self).bytes@;
                let q = old(self).pos - 1;
                if q + 1 < b.len() && b[q + 1] == SLASH {
                    &&& r == TokenKind::LAngleSlash
                    &&& final(self).pos == fence_end(b, q + 2, n as nat)
                    &&& final(self).mode == LexerMode::Inside(0)
                } else {
                    &&& r == TokenKind::LAngle
                    &&& final(self).pos == old(self).pos
                    &&& final(self).mode == old(self).mode
                }
            }),
    {
        let ghost b = self.bytes@;
        if self.pos < self.bytes.len() && self.bytes[self.pos] == SLASH {
            proof {
                lemma_ascii_at(b, self.pos as int);
            }
            self.pos = self.pos + 1;
            let mut k: usize = 0;
            while k < n && self.pos < self.bytes.len() && self.bytes[self.pos] == HASH
                invariant
                    self.raw_inv(),
                    b == self.bytes@,
                    self.input == old(self).input,
                    self.bytes == old(self).bytes,
                    self.buffer == old(self).buffer,
                    self.at == old(self).at,
                    self.mode == old(self).mode,
                    k <= n,
                    fence_end(b, old(self).pos + 1, n as nat) == fence_end(
                        b,
                        self.pos as int,
                        (n - k) as nat,
                    ),
                decreases n - k,
            {
                proof {
                    lemma_ascii_at(b, self.pos as int);
                }
                self.pos = self.pos + 1;
                k = k + 1;
            }
            self.mode = LexerMode::Inside(0);
            TokenKind::LAngleSlash
        } else {
            TokenKind::LAngle
        }
    }

    fn read_rangle(&mut self, n: usize) -> (r: TokenKind)
        ensures
            r == TokenKind::RAngle,
            *final(self) == (Lexer { mode: LexerMode::Outside(n), ..*old(self) }),
    {
        self.mode = LexerMode::Outside(n);
        TokenKind::RAngle
    }

    /// After `#`: the rest of the run, which closes the tag and opens a
    /// fence if `>` follows it.
    fn read_hashes(&mut self) -> (r: TokenKind)
        requires
            old(self).raw_inv(),
            1 <= old(self).pos,
            old(self).bytes@[old(self).pos - 1] == HASH,
        ensures
            final(self).raw_inv(),
            final(self).input == old(self).input,
            final(self).bytes == old(self).bytes,
            final(self).buffer == old(self).buffer,
            final(self).at == old(self).at,
            ({
                let b = old(self).bytes@;
                let q = old(self).pos - 1;
                let h = hash_run_end(b, q + 1);
                if 0 <= h < b.len() && b[h] == GT {
                    &&& r == TokenKind::RAngle
                    &&& final(self).pos == h + 1
                    &&& final(self).mode == LexerMode::Outside((h - q) as usize)
                } else {
                    &&& r == TokenKind::OrphanHashes
                    &&& final(self).pos == h
                    &&& final(self).mode == old(self).mode
                }
            }),
    {
        let ghost b = self.bytes@;
        let ghost q = self.pos - 1;
        let start = self.pos - 1;
        proof {
            lemma_hash_run_end(b, q + 1);
        }
        while self.pos < self.bytes.len() && self.bytes[self.pos] == HASH
            invariant
                self.raw_inv(),
                self.input == old(self).input,
                self.bytes == old(self).bytes,
                self.buffer == old(self).buffer,
                self.at == old(self).at,
                self.mode == old(self).mode,
                old(self).pos <= self.pos,
                b == self.bytes@,
                hash_run_end(b, q + 1) == hash_run_end(b, self.pos as int),
            decreases b.len() - self.pos,
        {
            proof {
                lemma_ascii_at(b, self.pos as int);
            }
            self.pos = self.pos + 1;
        }
        if self.peek_char() == Some(GT) {
            proof {
                lemma_ascii_at(b, self.pos as int);
            }
            let count = self.pos - start;
            self.pos = self.pos + 1;
            self.read_rangle(count)
        } else {
            TokenKind::OrphanHashes
        }
    }

    /// After `"`: a quoted value, in which `\` escapes the next character.
    /// It stops at the closing quote, which it consumes, or before a line
    /// break or the end of the input.
    fn read_attr_val(&mut self) -> (r: TokenKind)
        requires
            old(self).raw_inv(),
            1 <= old(self).pos,
            old(self).bytes@[old(self).pos - 1] == QUOTE,
        ensures
            final(self).raw_inv(),
            final(self).input == old(self).input,
            final(self).bytes == old(self).bytes,
            final(self).buffer == old(self).buffer,
            final(self).at == old(self).at,
            final(self).mode == old(self).mode,
            ({
                let b = old(self).bytes@;
                let (e, closed) = value_end(b, old(self).pos as int, false);
                if closed {
                    &&& r == TokenKind::AttrVal
                    &&& final(self).pos == e + 1
                } else {
                    &&& r == TokenKind::UnterminatedAttrVal
                    &&& final(self).pos == e
                }
            }),
    {
        let ghost b = self.bytes@;
        let ghost p0 = self.pos as int;
        let mut escape_next = false;
        proof {
            lemma_value_end(b, p0, false);
        }
        while self.pos < self.bytes.len()
            invariant
                self.base(),
                self.input == old(self).input,
                self.bytes == old(self).bytes,
                self.buffer == old(self).buffer,
                self.at == old(self).at,
                self.mode == old(self).mode,
                p0 <= self.pos <= b.len(),
                p0 == old(self).pos,
                b == self.bytes@,
                value_end(b, p0, false) == value_end(b, self.pos as int, escape_next),
            decreases b.len() - self.pos,
        {
            let c = self.bytes[self.pos];
            if c == NEWLINE || c == RETURN {
                proof {
                    lemma_ascii_at(b, self.pos as int);
                    assert(value_end(b, self.pos as int, escape_next) == (self.pos as int, false));
                }
                return TokenKind::UnterminatedAttrVal;
            }
            if c == QUOTE && !escape_next {
                proof {
                    lemma_ascii_at(b, self.pos as int);
                    assert(value_end(b, self.pos as int, escape_next) == (self.pos as int, true));
                }
                self.pos = self.pos + 1;
                return TokenKind::AttrVal;
            }
            escape_next = c == BACKSLASH && !escape_next;
            self.pos = self.pos + 1;
            proof {
                lemma_value_end(b, self.pos as int, escape_next);
            }
        }
        TokenKind::UnterminatedAttrVal
    }

    /// After a name's first letter: the rest of the name.
    fn read_name(&mut self) -> (r: TokenKind)
        requires
            old(self).raw_inv(),
        ensures
            final(self).raw_inv(),
            final(self).input == old(self).input,
            final(self).bytes == old(self).bytes,
            final(self).buffer == old(self).buffer,
            final(self).at == old(self).at,
            final(self).mode == old(self).mode,
            r == TokenKind::Name,
            final(self).pos == name_end(old(self).bytes@, old(self).pos as int),
    {
        let ghost b = self.bytes@;
        let ghost p0 = self.pos as int;
        while self.pos < self.bytes.len() && is_name_continue_byte(self.bytes[self.pos])
            invariant
                self.raw_inv(),
                self.input == old(self).input,
                self.bytes == old(self).bytes,
                self.buffer == old(self).buffer,
                self.at == old(self).at,
                self.mode == old(self).mode,
                b == self.bytes@,
                name_end(b, p0) == name_end(b, self.pos as int),
            decreases b.len() - self.pos,
        {
            proof {
                lemma_ascii_at(b, self.pos as int);
            }
            self.pos = self.pos + 1;
        }
        TokenKind::Name
    }

    /// Skips the rest of a character whose first byte was consumed.
    fn skip_continuation(&mut self)
        requires
            old(self).bytes@ == old(self).input.spec_bytes(),
            valid_utf8(old(self).bytes@),
            old(self).pos <= old(self).bytes@.len(),
        ensures
            final(self).raw_inv(),
            final(self).input == old(self).input,
            final(self).bytes == old(self).bytes,
            final(self).buffer == old(self).buffer,
            final(self).at == old(self).at,
            final(self).mode == old(self).mode,
            final(self).pos == char_end(old(self).bytes@, old(self).pos as int),
    {
        let ghost b = self.bytes@;
        let ghost p0 = self.pos as int;
        proof {
            lemma_char_end(b, p0);
        }
        while self.pos < self.bytes.len() && 0x80 <= self.bytes[self.pos] && self.bytes[self.pos]
            <= 0xbf
            invariant
                self.bytes == old(self).bytes,
                self.input == old(self).input,
                self.buffer == old(self).buffer,
                self.at == old(self).at,
                self.mode == old(self).mode,
                self.pos <= b.len(),
                b == self.bytes@,
                char_end(b, p0) == char_end(b, self.pos as int),
            decreases b.len() - self.pos,
        {
            self.pos = self.pos + 1;
        }
    }

    fn skip_whitespace(&mut self)
        requires
            old(self).raw_inv(),
        ensures
            final(self).raw_inv(),
            final(self).input == old(self).input,
            final(self).bytes == old(self).bytes,
            final(self).buffer == old(self).buffer,
            final(self).at == old(self).at,
            final(self).mode == old(self).mode,
            final(self).pos == space_end(old(self).bytes@, old(self).pos as int),
    {
        let ghost b = self.bytes@;
        let ghost p0 = self.pos as int;
        while self.pos < self.bytes.len() && is_whitespace(self.bytes[self.pos])
            invariant
                self.raw_inv(),
                self.input == old(self).input,
                self.bytes == old(self).bytes,
                self.buffer == old(self).buffer,
                self.at == old(self).at,
                self.mode == old(self).mode,
                b == self.bytes@,
                space_end(b, p0) == space_end(b, self.pos as int),
            decreases b.len() - self.pos,
        {
            proof {
                lemma_ascii_at(b, self.pos as int);
            }
            self.pos = self.pos + 1;
        }
    }

    fn current_pos(&self) -> (r: usize)
        ensures
            r == self.pos,
    {
        self.pos
    }

    fn peek_char(&self) -> (r: Option<u8>)
        ensures
            r == (if self.pos < self.bytes@.len() {
                Some(self.bytes@[self.pos as int])
            } else {
                None
            }),
    {
        if self.pos < self.bytes.len() {
            Some(self.bytes[self.pos])
        } else {
            None
        }
    }
}

} // verus!
