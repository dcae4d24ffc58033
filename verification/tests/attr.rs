use docsync::attr::{Attribute, DocAlias, DocComment, Token, TokenTree};
use docsync::source::{LineColumn, Span};

fn span(line: usize, from: usize, to: usize) -> Span {
    Span { start: LineColumn { line, column: from }, end: LineColumn { line, column: to } }
}

fn text(value: &str) -> Token {
    Token::Str { value: value.to_string(), span: span(1, 0, 1) }
}

fn ident(word: &str) -> Token {
    Token::Ident(word.to_string())
}

fn doc(tokens: Vec<TokenTree>) -> Attribute {
    Attribute { path: Some("doc".to_string()), tokens }
}

fn alias(key: &str) -> Vec<TokenTree> {
    vec![TokenTree::Parenthesized(vec![ident("alias"), Token::Punct('='), text(key)])]
}

fn comment(at: Span) -> Vec<TokenTree> {
    vec![
        TokenTree::Token(Token::Punct('=')),
        TokenTree::Token(Token::Str { value: " old".to_string(), span: at }),
    ]
}

#[test]
fn an_alias_reads_as_its_key() {
    assert_eq!(DocAlias::parse(&alias("c_foo")).unwrap().0, "c_foo");
}

#[test]
fn a_comma_may_follow_the_key() {
    let tokens = vec![TokenTree::Parenthesized(vec![
        ident("alias"),
        Token::Punct('='),
        text("c_foo"),
        Token::Punct(','),
    ])];
    assert_eq!(DocAlias::parse(&tokens).unwrap().0, "c_foo");
}

#[test]
fn other_shapes_are_no_alias() {
    let inside = |inner: Vec<Token>| DocAlias::parse(&vec![TokenTree::Parenthesized(inner)]);
    assert!(inside(vec![]).is_none());
    assert!(inside(vec![ident("alias"), Token::Punct('=')]).is_none());
    assert!(inside(vec![ident("hidden"), Token::Punct('='), text("x")]).is_none());
    assert!(inside(vec![ident("r#alias"), Token::Punct('='), text("x")]).is_none());
    assert!(inside(vec![ident("alias"), Token::Punct(':'), text("x")]).is_none());
    assert!(inside(vec![ident("alias"), Token::Punct('='), ident("x")]).is_none());
    assert!(inside(vec![ident("alias"), Token::Punct('='), Token::Other]).is_none());
    assert!(inside(vec![ident("alias"), Token::Punct('='), text("x"), Token::Punct(';')])
        .is_none());
    assert!(inside(vec![ident("alias"), Token::Punct('='), text("x"), text("y")]).is_none());
    assert!(inside(vec![
        ident("alias"),
        Token::Punct('='),
        text("x"),
        Token::Punct(','),
        text("y")
    ])
    .is_none());
    assert!(DocAlias::parse(&vec![]).is_none());
    assert!(DocAlias::parse(&vec![TokenTree::Group]).is_none());
    assert!(DocAlias::parse(&comment(span(1, 0, 7))).is_none());
    let mut twice = alias("a");
    twice.extend(alias("b"));
    assert!(DocAlias::parse(&twice).is_none());
}

#[test]
fn the_first_alias_of_a_declaration_is_its_alias() {
    let attrs = vec![
        Attribute { path: Some("inline".to_string()), tokens: vec![] },
        doc(comment(span(1, 0, 7))),
        Attribute { path: Some("cfg".to_string()), tokens: alias("not_this") },
        Attribute { path: None, tokens: alias("nor_this") },
        doc(alias("c_foo")),
        doc(alias("c_bar")),
    ];
    assert_eq!(DocAlias::find(&attrs), Some("c_foo".to_string()));
    assert_eq!(DocAlias::find(&vec![]), None);
    assert_eq!(DocAlias::find(&vec![doc(comment(span(1, 0, 7)))]), None);
}

#[test]
fn a_comment_reads_as_the_span_of_its_literal() {
    assert_eq!(DocComment::parse(&comment(span(3, 4, 11))), Some(DocComment(span(3, 4, 11))));
}

#[test]
fn other_shapes_are_no_comment() {
    assert!(DocComment::parse(&vec![]).is_none());
    assert!(DocComment::parse(&alias("x")).is_none());
    assert!(DocComment::parse(&vec![TokenTree::Token(Token::Punct('='))]).is_none());
    assert!(DocComment::parse(&vec![
        TokenTree::Token(Token::Punct('=')),
        TokenTree::Token(ident("x"))
    ])
    .is_none());
    assert!(DocComment::parse(&vec![
        TokenTree::Token(Token::Punct('+')),
        TokenTree::Token(text("x"))
    ])
    .is_none());
    let mut longer = comment(span(1, 0, 7));
    longer.push(TokenTree::Token(Token::Punct(',')));
    assert!(DocComment::parse(&longer).is_none());
}

#[test]
fn the_first_comment_of_a_declaration_is_its_comment() {
    let attrs = vec![
        doc(alias("c_foo")),
        Attribute { path: Some("note".to_string()), tokens: comment(span(1, 0, 5)) },
        doc(comment(span(2, 4, 11))),
        doc(comment(span(3, 4, 11))),
    ];
    assert_eq!(DocComment::find(&attrs), Some(span(2, 4, 11)));
    assert_eq!(DocComment::find(&vec![doc(alias("c_foo"))]), None);
    assert!(attrs[0].has_doc_path());
    assert!(!attrs[1].has_doc_path());
}

#[test]
fn the_last_comment_of_a_declaration_ends_its_block() {
    let attrs = vec![
        doc(comment(span(2, 4, 11))),
        doc(alias("c_foo")),
        doc(comment(span(3, 4, 9))),
        Attribute { path: Some("note".to_string()), tokens: comment(span(4, 0, 5)) },
    ];
    assert_eq!(DocComment::find_last(&attrs), Some(span(3, 4, 9)));
    assert_eq!(
        DocComment::block(&attrs),
        Some(Span {
            start: LineColumn { line: 2, column: 4 },
            end: LineColumn { line: 3, column: 9 }
        })
    );
    assert_eq!(DocComment::block(&vec![doc(comment(span(7, 0, 5)))]), Some(span(7, 0, 5)));
    assert_eq!(DocComment::find_last(&vec![doc(alias("c_foo"))]), None);
    assert_eq!(DocComment::block(&vec![doc(alias("c_foo"))]), None);
    assert_eq!(DocComment::block(&vec![]), None);
}
