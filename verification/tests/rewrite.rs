use docsync::aliases::AliasMap;
use docsync::attr::{Attribute, Token, TokenTree};
use docsync::replace::SpliceError;
use docsync::resolve::{require_aliases, resolve_corpus, DocTable, Entity, EntityKind};
use docsync::rewrite::{collect_replacements, plan_output, rewrite, Output};
use docsync::scan::{DocLocations, DocVisitor, Site};
use docsync::source::{ByteRange, LineColumn, Source, Span};

fn at(line: usize, column: usize) -> LineColumn {
    LineColumn { line, column }
}

fn alias(key: &str) -> Attribute {
    Attribute {
        path: Some("doc".to_string()),
        tokens: vec![TokenTree::Parenthesized(vec![
            Token::Ident("alias".to_string()),
            Token::Punct('='),
            Token::Str { value: key.to_string(), span: Span { start: at(1, 0), end: at(1, 1) } },
        ])],
    }
}

fn comment(span: Span) -> Attribute {
    Attribute {
        path: Some("doc".to_string()),
        tokens: vec![
            TokenTree::Token(Token::Punct('=')),
            TokenTree::Token(Token::Str { value: " old".to_string(), span }),
        ],
    }
}

fn function(name: &str, text: &str) -> Entity {
    Entity {
        kind: EntityKind::FunctionDecl,
        name: Some(name.to_string()),
        comment: Some(format!(
            "<Function><Abstract><Para>{}</Para></Abstract></Function>",
            text
        )),
    }
}

fn scan(text: &[u8], declarations: &[(Span, Vec<Attribute>)]) -> DocLocations {
    let mut visitor = DocVisitor::new(Source::new(text));
    for (span, attrs) in declarations {
        visitor.try_replace_docs(*span, attrs);
    }
    visitor.into_locations()
}

fn resolve(files: &[&DocLocations], corpus: Vec<Entity>) -> DocTable {
    let mut table: DocTable = AliasMap::new();
    for file in files {
        require_aliases(&mut table, file);
    }
    resolve_corpus(&mut table, &corpus).unwrap();
    table
}

const METHOD: &str = "impl T {\n    #[doc(alias = \"c_foo\")]\n    fn foo() {}\n}\n";

#[test]
fn documentation_is_inserted_above_a_declaration_at_its_column() {
    let found = scan(
        METHOD.as_bytes(),
        &[(Span { start: at(2, 4), end: at(3, 15) }, vec![alias("c_foo")])],
    );
    let table = resolve(&[&found], vec![function("c_foo", "Does foo.")]);
    let file = rewrite(METHOD.as_bytes(), &found, &table).unwrap();
    assert!(file.changed);
    assert_eq!(
        String::from_utf8(file.content).unwrap(),
        "impl T {\n    /// Does foo\\.\n    /// \n    #[doc(alias = \"c_foo\")]\n    fn foo() {}\n}\n"
    );
    assert_eq!(plan_output(false, false, file.changed), Output::Print);
    assert_eq!(plan_output(false, true, file.changed), Output::Print);
    assert_eq!(plan_output(true, false, file.changed), Output::Write { backup: false });
    assert_eq!(plan_output(true, true, file.changed), Output::Write { backup: true });
}

#[test]
fn documentation_at_column_zero_is_put_in_as_it_is() {
    let text = "/// old\n#[doc(alias = \"c_foo\")]\nfn foo() {}\n";
    let found = scan(
        text.as_bytes(),
        &[(
            Span { start: at(1, 0), end: at(3, 11) },
            vec![comment(Span { start: at(1, 0), end: at(1, 7) }), alias("c_foo")],
        )],
    );
    let table = resolve(&[&found], vec![function("c_foo", "Does foo")]);
    let file = rewrite(text.as_bytes(), &found, &table).unwrap();
    assert_eq!(
        String::from_utf8(file.content).unwrap(),
        "/// Does foo\n/// \n#[doc(alias = \"c_foo\")]\nfn foo() {}\n"
    );
}

#[test]
fn a_file_whose_aliases_are_unresolved_stays_as_it_is() {
    let found = scan(
        METHOD.as_bytes(),
        &[(Span { start: at(2, 4), end: at(3, 15) }, vec![alias("c_foo")])],
    );
    let table = resolve(&[&found], vec![function("c_other", "Other.")]);
    let file = rewrite(METHOD.as_bytes(), &found, &table).unwrap();
    assert!(!file.changed);
    assert_eq!(file.content, METHOD.as_bytes().to_vec());
    assert_eq!(plan_output(false, false, file.changed), Output::Print);
    assert_eq!(plan_output(true, false, file.changed), Output::Keep);
    assert_eq!(plan_output(true, true, file.changed), Output::Keep);
    let empty: DocTable = AliasMap::new();
    let file = rewrite(METHOD.as_bytes(), &found, &empty).unwrap();
    assert!(!file.changed);
    assert_eq!(file.content, METHOD.as_bytes().to_vec());
}

#[test]
fn an_alias_without_a_site_changes_nothing() {
    let found = scan(
        METHOD.as_bytes(),
        &[(Span { start: at(20, 0), end: at(21, 0) }, vec![alias("c_foo")])],
    );
    let table = resolve(&[&found], vec![function("c_foo", "Does foo.")]);
    let file = rewrite(METHOD.as_bytes(), &found, &table).unwrap();
    assert!(!file.changed);
    assert_eq!(file.content, METHOD.as_bytes().to_vec());
}

#[test]
fn declarations_that_share_an_alias_get_the_same_text_each_at_its_column() {
    let text = "trait T {\n    #[doc(alias = \"c_foo\")]\n    fn foo();\n}\nmod m {\n        #[doc(alias = \"c_foo\")]\n        fn foo() {}\n}\n";
    let found = scan(
        text.as_bytes(),
        &[
            (Span { start: at(2, 4), end: at(3, 13) }, vec![alias("c_foo")]),
            (Span { start: at(6, 8), end: at(7, 19) }, vec![alias("c_foo")]),
        ],
    );
    assert_eq!(found.len(), 1);
    let table = resolve(&[&found], vec![function("c_foo", "Does foo")]);
    let reps = collect_replacements(&found, &table);
    assert_eq!(reps.len(), 2);
    assert_eq!(reps[0].text, b"/// Does foo\n    /// \n    ".to_vec());
    assert_eq!(reps[1].text, b"/// Does foo\n        /// \n        ".to_vec());
    let file = rewrite(text.as_bytes(), &found, &table).unwrap();
    assert_eq!(
        String::from_utf8(file.content).unwrap(),
        "trait T {\n    /// Does foo\n    /// \n    #[doc(alias = \"c_foo\")]\n    fn foo();\n}\nmod m {\n        /// Does foo\n        /// \n        #[doc(alias = \"c_foo\")]\n        fn foo() {}\n}\n"
    );
}

#[test]
fn sites_in_conflict_are_refused() {
    let mut found: DocLocations = AliasMap::new();
    found.push(
        "c_foo".to_string(),
        vec![
            Site { column: 0, range: ByteRange { start: 0, end: 8 } },
            Site { column: 0, range: ByteRange { start: 4, end: 4 } },
        ],
    );
    let table = resolve(&[&found], vec![function("c_foo", "Does foo")]);
    assert_eq!(rewrite(METHOD.as_bytes(), &found, &table).unwrap_err(), SpliceError::Overlap);
    let mut beyond: DocLocations = AliasMap::new();
    beyond.push(
        "c_foo".to_string(),
        vec![Site { column: 0, range: ByteRange { start: 0, end: 800 } }],
    );
    assert_eq!(rewrite(METHOD.as_bytes(), &beyond, &table).unwrap_err(), SpliceError::OutOfBounds);
}

#[test]
fn a_block_that_holds_the_documentation_already_is_replaced_by_itself() {
    let text = "/// Does foo\n/// \n#[doc(alias = \"c_foo\")]\nfn foo() {}\n";
    let found = scan(
        text.as_bytes(),
        &[(
            Span { start: at(1, 0), end: at(4, 11) },
            vec![
                comment(Span { start: at(1, 0), end: at(1, 12) }),
                comment(Span { start: at(2, 0), end: at(2, 4) }),
                alias("c_foo"),
            ],
        )],
    );
    assert_eq!(found.value(0), &vec![Site { column: 0, range: ByteRange { start: 0, end: 17 } }]);
    let table = resolve(&[&found], vec![function("c_foo", "Does foo")]);
    let file = rewrite(text.as_bytes(), &found, &table).unwrap();
    assert!(file.changed);
    assert_eq!(String::from_utf8(file.content).unwrap(), text);
}

#[test]
fn a_block_of_old_comments_is_replaced_as_a_whole() {
    let text = "impl T {\n    /// old one\n    /// old two\n    #[doc(alias = \"c_foo\")]\n    fn foo() {}\n}\n";
    let found = scan(
        text.as_bytes(),
        &[(
            Span { start: at(2, 4), end: at(5, 15) },
            vec![
                comment(Span { start: at(2, 4), end: at(2, 15) }),
                comment(Span { start: at(3, 4), end: at(3, 15) }),
                alias("c_foo"),
            ],
        )],
    );
    let table = resolve(&[&found], vec![function("c_foo", "Does foo")]);
    let file = rewrite(text.as_bytes(), &found, &table).unwrap();
    assert_eq!(
        String::from_utf8(file.content).unwrap(),
        "impl T {\n    /// Does foo\n    /// \n    \n    #[doc(alias = \"c_foo\")]\n    fn foo() {}\n}\n"
    );
}

#[test]
fn a_value_of_the_map_is_swapped_in_place() {
    let mut map: AliasMap<u8> = AliasMap::new();
    map.push("a".to_string(), 1);
    map.push("b".to_string(), 2);
    map.push("c".to_string(), 3);
    assert_eq!(map.swap_value(1, 9), 2);
    assert_eq!((map.len(), *map.value(0), *map.value(1), *map.value(2)), (3, 1, 9, 3));
    assert_eq!(map.swap_value(2, 7), 3);
    assert_eq!((map.key(2).as_str(), *map.value(2)), ("c", 7));
}
