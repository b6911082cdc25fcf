use hyli::lexer::{Lexer, TokenKind};

fn tokens(input: &str) -> Vec<(TokenKind, String, usize, usize)> {
    let mut lexer = Lexer::new(input);
    let mut out = Vec::new();
    loop {
        let t = lexer.pop();
        let kind = t.kind;
        out.push((t.kind, t.text.clone(), t.start(), t.end()));
        if kind == TokenKind::Eof {
            break;
        }
    }
    out
}

fn tok(kind: TokenKind, text: &str, start: usize, end: usize) -> (TokenKind, String, usize, usize) {
    (kind, text.to_string(), start, end)
}

#[test]
fn plain_tag_tokens() {
    assert_eq!(
        tokens("<A x=\"1\">t</A>"),
        vec![
            tok(TokenKind::LAngle, "<", 0, 1),
            tok(TokenKind::Name, "A", 1, 2),
            tok(TokenKind::Name, "x", 3, 4),
            tok(TokenKind::Equals, "=", 4, 5),
            tok(TokenKind::AttrVal, "1", 6, 7),
            tok(TokenKind::RAngle, ">", 8, 9),
            tok(TokenKind::Text, "t", 9, 10),
            tok(TokenKind::LAngleSlash, "</", 10, 12),
            tok(TokenKind::Name, "A", 12, 13),
            tok(TokenKind::RAngle, ">", 13, 14),
            tok(TokenKind::Eof, "", 14, 14),
        ]
    );
}

#[test]
fn fenced_body_tokens() {
    assert_eq!(
        tokens("<C #>a < b </C> c</# C>"),
        vec![
            tok(TokenKind::LAngle, "<", 0, 1),
            tok(TokenKind::Name, "C", 1, 2),
            tok(TokenKind::RAngle, "#>", 3, 5),
            tok(TokenKind::Text, "a < b </C> c", 5, 17),
            tok(TokenKind::LAngleSlash, "</#", 17, 20),
            tok(TokenKind::Name, "C", 21, 22),
            tok(TokenKind::RAngle, ">", 22, 23),
            tok(TokenKind::Eof, "", 23, 23),
        ]
    );
}

#[test]
fn fence_of_two_ignores_a_one_hash_close() {
    let toks = tokens("<C ##>x</# C>y</## C>");
    assert_eq!(toks[3], tok(TokenKind::Text, "x</# C>y", 6, 14));
    assert_eq!(toks[4], tok(TokenKind::LAngleSlash, "</##", 14, 18));
}

#[test]
fn escaped_quote_stays_in_value() {
    let toks = tokens("<A v=\"a\\\"b\">");
    assert_eq!(toks[4], tok(TokenKind::AttrVal, "a\\\"b", 6, 10));
    assert_eq!(toks[5], tok(TokenKind::RAngle, ">", 11, 12));
}

#[test]
fn value_broken_by_newline_is_unterminated() {
    let toks = tokens("<A v=\"ab\nc\">");
    assert_eq!(toks[4], tok(TokenKind::UnterminatedAttrVal, "ab", 6, 8));
}

#[test]
fn value_cut_by_end_of_input_is_unterminated() {
    let toks = tokens("<A v=\"ab");
    assert_eq!(toks[4], tok(TokenKind::UnterminatedAttrVal, "ab", 6, 8));
    assert_eq!(toks[5], tok(TokenKind::Eof, "", 8, 8));
}

#[test]
fn hashes_without_angle_are_orphaned() {
    let toks = tokens("</# A>");
    assert_eq!(toks[0], tok(TokenKind::LAngleSlash, "</", 0, 2));
    assert_eq!(toks[1], tok(TokenKind::OrphanHashes, "#", 2, 3));
    assert_eq!(toks[2], tok(TokenKind::Name, "A", 4, 5));
}

#[test]
fn name_characters() {
    let toks = tokens("<Code.Listing_2-b>");
    assert_eq!(toks[1], tok(TokenKind::Name, "Code.Listing_2-b", 1, 17));
}

#[test]
fn spans_count_bytes() {
    let toks = tokens("<A>h\u{e9}llo</A>");
    assert_eq!(toks[3], tok(TokenKind::Text, "h\u{e9}llo", 3, 9));
    assert_eq!(toks[4], tok(TokenKind::LAngleSlash, "</", 9, 11));
}

#[test]
fn unknown_character_in_tag_is_dropped() {
    let toks = tokens("<A !b<B>");
    assert_eq!(toks[2], tok(TokenKind::Text, "b", 4, 5));
    assert_eq!(toks[3], tok(TokenKind::LAngle, "<", 5, 6));
}

#[test]
fn end_of_input_repeats() {
    let mut lexer = Lexer::new("x");
    assert_eq!(lexer.pop().kind, TokenKind::Text);
    assert_eq!(lexer.pop().kind, TokenKind::Eof);
    assert_eq!(lexer.pop().kind, TokenKind::Eof);
    assert_eq!(lexer.peek().start(), 1);
}

#[test]
fn peek_does_not_consume() {
    let mut lexer = Lexer::new("<A>");
    assert_eq!(lexer.peek().kind, TokenKind::LAngle);
    assert_eq!(lexer.peek().kind, TokenKind::LAngle);
    assert_eq!(lexer.pop().kind, TokenKind::LAngle);
    assert_eq!(lexer.pop().kind, TokenKind::Name);
}
