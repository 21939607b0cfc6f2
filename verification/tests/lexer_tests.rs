use blueprint::diag::{DiagKind, Span};
use blueprint::lexer::{lexer, Spanned, Token};

fn span(start: usize, end: usize) -> Span {
    Span { start, end }
}

#[test]
fn test_lexer() {
    let (toks, diags) = lexer(&b"123".to_vec());
    assert!(diags.is_empty());
    assert_eq!(toks, vec![Spanned { node: Token::Num(123), span: span(0, 3) }]);

    let (toks, diags) = lexer(&b"123 //comment".to_vec());
    assert!(diags.is_empty());
    assert_eq!(toks, vec![Spanned { node: Token::Num(123), span: span(0, 3) }]);

    let (toks, diags) = lexer(&b"shape".to_vec());
    assert!(diags.is_empty());
    assert_eq!(toks, vec![Spanned { node: Token::Shape, span: span(0, 5) }]);

    let (toks, diags) = lexer(&b"ident".to_vec());
    assert!(diags.is_empty());
    assert_eq!(toks, vec![Spanned { node: Token::Ident(b"ident".to_vec()), span: span(0, 5) }]);

    let (toks, diags) = lexer(&b"123 ident shape".to_vec());
    assert!(diags.is_empty());
    assert_eq!(
        toks,
        vec![
            Spanned { node: Token::Num(123), span: span(0, 3) },
            Spanned { node: Token::Ident(b"ident".to_vec()), span: span(4, 9) },
            Spanned { node: Token::Shape, span: span(10, 15) },
        ]
    );

    let (toks, diags) = lexer(&b"{}".to_vec());
    assert!(diags.is_empty());
    assert_eq!(
        toks,
        vec![
            Spanned { node: Token::OpenCurly, span: span(0, 1) },
            Spanned { node: Token::CloseCurly, span: span(1, 2) },
        ]
    );

    let (toks, diags) = lexer(&b"#my_tag".to_vec());
    assert!(diags.is_empty());
    assert_eq!(toks, vec![Spanned { node: Token::Tag(b"my_tag".to_vec()), span: span(0, 7) }]);

    let (toks, diags) = lexer(&b"#-my-tag".to_vec());
    assert!(diags.is_empty());
    assert_eq!(toks, vec![Spanned { node: Token::Tag(b"-my-tag".to_vec()), span: span(0, 8) }]);

    let (toks, diags) = lexer(&b"#12".to_vec());
    assert!(diags.is_empty());
    assert_eq!(toks, vec![Spanned { node: Token::Tag(b"12".to_vec()), span: span(0, 3) }]);
}

#[test]
fn lexer_skips_unexpected_bytes_with_one_diagnostic_each() {
    let (toks, diags) = lexer(&b"$ 7".to_vec());
    assert_eq!(diags.len(), 1);
    assert_eq!(diags[0].kind, DiagKind::UnexpectedChar);
    assert_eq!(diags[0].span, span(0, 1));
    assert_eq!(toks, vec![Spanned { node: Token::Num(7), span: span(2, 3) }]);
}

#[test]
fn lexer_reports_out_of_range_literal() {
    let (toks, diags) = lexer(&b"99999999999999999999 5".to_vec());
    assert_eq!(diags.len(), 1);
    assert_eq!(diags[0].kind, DiagKind::NumberOverflow);
    assert_eq!(diags[0].span, span(0, 20));
    assert_eq!(toks, vec![Spanned { node: Token::Num(5), span: span(21, 22) }]);
}

#[test]
fn lexer_handles_negative_numbers_and_keywords() {
    let (toks, diags) = lexer(&b"move -12,3".to_vec());
    assert!(diags.is_empty());
    assert_eq!(
        toks,
        vec![
            Spanned { node: Token::Move, span: span(0, 4) },
            Spanned { node: Token::Num(-12), span: span(5, 8) },
            Spanned { node: Token::Comma, span: span(8, 9) },
            Spanned { node: Token::Num(3), span: span(9, 10) },
        ]
    );
}
