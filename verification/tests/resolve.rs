use docsync::aliases::AliasMap;
use docsync::resolve::{
    kind_carries_docs, require_aliases, resolve_corpus, resolve_entity, DocTable, Entity,
    EntityKind,
};
use docsync::scan::DocLocations;

fn entity(kind: EntityKind, name: &str, text: Option<&str>) -> Entity {
    Entity {
        kind,
        name: Some(name.to_string()),
        comment: text
            .map(|t| format!("<Function><Abstract><Para>{}</Para></Abstract></Function>", t)),
    }
}

fn table(aliases: &[&str]) -> DocTable {
    let mut table = AliasMap::new();
    for alias in aliases {
        table.push(alias.to_string(), Vec::new());
    }
    table
}

fn body(table: &DocTable, alias: &str) -> String {
    String::from_utf8(table.value(table.find(alias).unwrap()).clone()).unwrap()
}

#[test]
fn every_alias_of_every_file_is_needed_once() {
    let mut first: DocLocations = AliasMap::new();
    first.push("c_a".to_string(), Vec::new());
    first.push("c_b".to_string(), Vec::new());
    let mut second: DocLocations = AliasMap::new();
    second.push("c_b".to_string(), Vec::new());
    second.push("c_c".to_string(), Vec::new());
    let mut table: DocTable = AliasMap::new();
    require_aliases(&mut table, &first);
    require_aliases(&mut table, &second);
    assert_eq!(table.len(), 3);
    assert_eq!((table.key(0).as_str(), table.key(1).as_str(), table.key(2).as_str()), ("c_a", "c_b", "c_c"));
    assert!(table.value(0).is_empty() && table.value(1).is_empty() && table.value(2).is_empty());
}

#[test]
fn no_file_needs_no_alias() {
    let mut table: DocTable = AliasMap::new();
    require_aliases(&mut table, &AliasMap::new());
    assert_eq!(table.len(), 0);
    assert!(resolve_corpus(&mut table, &vec![entity(EntityKind::FunctionDecl, "f", Some("x"))])
        .is_ok());
    assert_eq!(table.len(), 0);
}

#[test]
fn a_declaration_documents_the_alias_of_its_name() {
    let mut table = table(&["c_foo", "c_bar"]);
    assert!(resolve_entity(&mut table, &entity(EntityKind::FunctionDecl, "c_bar", Some("Bar")))
        .is_ok());
    assert_eq!(body(&table, "c_foo"), "");
    assert_eq!(body(&table, "c_bar"), "/// Bar\n/// ");
}

#[test]
fn the_first_declaration_of_a_name_wins() {
    let mut table = table(&["c_foo"]);
    let entities = vec![
        entity(EntityKind::FunctionDecl, "c_foo", None),
        entity(EntityKind::Other, "c_foo", Some("macro")),
        entity(EntityKind::FunctionDecl, "c_food", Some("other")),
        entity(EntityKind::FunctionDecl, "c_foo", Some("first")),
        entity(EntityKind::FunctionDecl, "c_foo", Some("second")),
    ];
    assert!(resolve_corpus(&mut table, &entities).is_ok());
    assert_eq!(body(&table, "c_foo"), "/// first\n/// ");
}

#[test]
fn a_comment_that_renders_to_nothing_leaves_the_alias_open() {
    let mut table = table(&["c_foo"]);
    let blank = Entity {
        kind: EntityKind::StructDecl,
        name: Some("c_foo".to_string()),
        comment: Some("<Struct><Name>c_foo</Name></Struct>".to_string()),
    };
    let entities = vec![blank, entity(EntityKind::TypedefDecl, "c_foo", Some("later"))];
    assert!(resolve_corpus(&mut table, &entities).is_ok());
    assert_eq!(body(&table, "c_foo"), "/// later\n/// ");
}

#[test]
fn only_some_kinds_carry_documentation() {
    assert!(kind_carries_docs(EntityKind::FunctionDecl));
    assert!(kind_carries_docs(EntityKind::StructDecl));
    assert!(kind_carries_docs(EntityKind::TypedefDecl));
    assert!(kind_carries_docs(EntityKind::EnumDecl));
    assert!(kind_carries_docs(EntityKind::EnumConstantDecl));
    assert!(!kind_carries_docs(EntityKind::Other));
}

#[test]
fn a_declaration_without_a_name_documents_nothing() {
    let mut table = table(&["c_foo"]);
    let nameless = Entity {
        kind: EntityKind::EnumDecl,
        name: None,
        comment: Some("<Enum><Abstract><Para>x</Para></Abstract></Enum>".to_string()),
    };
    assert!(resolve_entity(&mut table, &nameless).is_ok());
    assert_eq!(body(&table, "c_foo"), "");
}

#[test]
fn a_comment_that_cannot_be_rendered_ends_the_run() {
    let mut table = table(&["c_foo", "c_bar"]);
    let broken = Entity {
        kind: EntityKind::FunctionDecl,
        name: Some("c_foo".to_string()),
        comment: Some("<Function><Abstract>".to_string()),
    };
    let entities = vec![
        entity(EntityKind::FunctionDecl, "c_bar", Some("Bar")),
        broken,
        entity(EntityKind::FunctionDecl, "c_foo", Some("never")),
    ];
    assert!(resolve_corpus(&mut table, &entities).is_err());
    assert_eq!(body(&table, "c_foo"), "");
}

#[test]
fn a_broken_comment_that_is_not_needed_is_not_read() {
    let mut table = table(&["c_foo"]);
    let unneeded = Entity {
        kind: EntityKind::FunctionDecl,
        name: Some("c_other".to_string()),
        comment: Some("<broken".to_string()),
    };
    let resolved = Entity {
        kind: EntityKind::FunctionDecl,
        name: Some("c_foo".to_string()),
        comment: Some("<broken".to_string()),
    };
    let entities = vec![
        unneeded,
        entity(EntityKind::FunctionDecl, "c_foo", Some("Foo")),
        resolved,
    ];
    assert!(resolve_corpus(&mut table, &entities).is_ok());
    assert_eq!(body(&table, "c_foo"), "/// Foo\n/// ");
}
