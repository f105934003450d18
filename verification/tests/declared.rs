use sql_entity_graph::declared::{
    find_char, rfind_separator, DeclaredKind, SqlDeclared, SqlDeclaredEntity,
};
use sql_entity_graph::entity::ExtensionSqlEntity;
use sql_entity_graph::error::SqlGraphError;

fn foo() -> SqlDeclaredEntity {
    SqlDeclaredEntity::build("Type", "Foo").unwrap()
}

#[test]
fn build_keeps_sort_and_name() {
    let t = SqlDeclaredEntity::build("Type", "a::Foo").unwrap();
    assert_eq!(t.kind(), DeclaredKind::Type);
    assert_eq!(t.name(), "a::Foo");
    assert!(matches!(t, SqlDeclaredEntity::Type(_)));
    let e = SqlDeclaredEntity::build("Enum", "Foo").unwrap();
    assert_eq!(e.kind(), DeclaredKind::Enum);
    assert!(matches!(e, SqlDeclaredEntity::Enum(_)));
    let f = SqlDeclaredEntity::build("Function", "Foo").unwrap();
    assert_eq!(f.kind(), DeclaredKind::Function);
    assert!(matches!(f, SqlDeclaredEntity::Function(_)));
}

#[test]
fn build_refuses_an_unknown_tag() {
    assert_eq!(
        SqlDeclaredEntity::build("Table", "Foo"),
        Err(SqlGraphError::MalformedDeclaration("Table".to_string()))
    );
    assert_eq!(
        SqlDeclaredEntity::build("type", "Foo"),
        Err(SqlGraphError::MalformedDeclaration("type".to_string()))
    );
    assert_eq!(
        SqlDeclaredEntity::build("", "Foo"),
        Err(SqlGraphError::MalformedDeclaration(String::new()))
    );
}

#[test]
fn build_refuses_an_empty_name() {
    assert_eq!(SqlDeclaredEntity::build("Type", ""), Err(SqlGraphError::EmptyIdentifier));
    assert_eq!(SqlDeclaredEntity::build("Table", ""), Err(SqlGraphError::EmptyIdentifier));
}

#[test]
fn every_spelling_matches() {
    let foo = foo();
    for spelling in [
        "Foo",
        "Option<Foo>",
        "Vec<Foo>",
        "Vec<Option<Foo>>",
        "Option<Vec<Foo>>",
        "Option<Vec<Option<Foo>>>",
        "Array<Foo>",
        "Option<Array<Foo>>",
        "Varlena<Foo>",
        "pgx::pgbox::PgBox<Foo>",
        "pgx::pgbox::PgBox<Foo, pgx::pgbox::AllocatedByRust>",
        "pgx::pgbox::PgBox<Foo, pgx::pgbox::AllocatedByPostgres>",
    ] {
        assert!(foo.has_match(spelling), "{}", spelling);
    }
}

#[test]
fn other_texts_do_not_match() {
    let foo = foo();
    for other in [
        "Bar",
        "foo",
        "Foo ",
        "",
        "Option<Bar>",
        "Option<Foo",
        "Option<Vec<Option<Foo>>",
        "Vec<Vec<Foo>>",
        "Box<Foo>",
        "PgBox<Foo>",
        "pgx::pgbox::PgBox<Foo, pgx::pgbox::AllocatedByC>",
    ] {
        assert!(!foo.has_match(other), "{}", other);
    }
}

#[test]
fn qualification_is_taken_off_before_a_generic_parameter() {
    let foo = foo();
    assert!(foo.has_match("core::option::Option<Foo>"));
    assert!(foo.has_match("std::vec::Vec<Foo>"));
    assert!(foo.has_match("alloc::vec::Vec<Option<Foo>>"));
    assert!(foo.has_match("x::Option<Vec<Option<Foo>>>"));
    assert!(foo.has_match("pgx::Varlena<Foo>"));
    assert!(foo.has_match(":::Option<Foo>"));
    assert!(!foo.has_match("core::option::Option<Bar>"));
    assert!(!foo.has_match("Option<core::Foo>"));
    assert!(!foo.has_match("a::pgx::pgbox::PgBox<Foo>"));
}

#[test]
fn qualification_stays_without_a_generic_parameter() {
    let foo = foo();
    assert!(!foo.has_match("core::Foo"));
    assert!(!foo.has_match("crate::Foo"));
    let qualified = SqlDeclaredEntity::build("Type", "core::Foo").unwrap();
    assert!(qualified.has_match("core::Foo"));
    assert!(!qualified.has_match("Foo"));
    assert!(qualified.has_match("Option<core::Foo>"));
}

#[test]
fn sql_is_the_last_segment() {
    let sql = |name: &str| SqlDeclaredEntity::build("Type", name).unwrap().sql();
    assert_eq!(sql("Foo"), "Foo");
    assert_eq!(sql("a::b::Foo"), "Foo");
    assert_eq!(sql("a::"), "");
    assert_eq!(sql("::Foo"), "Foo");
    assert_eq!(sql("a:::b"), ":b");
    assert_eq!(sql("a::::b"), "b");
    assert_eq!(sql("a:b"), "a:b");
    assert_eq!(sql(":"), ":");
    assert_eq!(sql("é::ü"), "ü");
}

#[test]
fn label_names_sort_and_name() {
    assert_eq!(SqlDeclaredEntity::build("Type", "Foo").unwrap().label(), "Type(Foo)");
    assert_eq!(SqlDeclaredEntity::build("Enum", "Foo").unwrap().label(), "Enum(Foo)");
    assert_eq!(SqlDeclaredEntity::build("Function", "Foo").unwrap().label(), "Function Foo)");
}

#[test]
fn clone_is_the_same_entity() {
    let foo = foo();
    let copy = foo.clone();
    assert_eq!(foo, copy);
    assert!(copy.has_match("Vec<Foo>"));
    assert_eq!(copy.sql(), "Foo");
}

#[test]
fn identifier_must_be_of_the_same_sort() {
    let foo = foo();
    assert!(foo.has_sql_declared_entity(&SqlDeclared::Type("Option<Foo>".to_string())));
    assert!(foo.has_sql_declared_entity(&SqlDeclared::Type("core::option::Option<Foo>".to_string())));
    assert!(!foo.has_sql_declared_entity(&SqlDeclared::Enum("Option<Foo>".to_string())));
    assert!(!foo.has_sql_declared_entity(&SqlDeclared::Function("Foo".to_string())));
    assert!(!foo.has_sql_declared_entity(&SqlDeclared::Type("Bar".to_string())));
    let f = SqlDeclaredEntity::build("Function", "Foo").unwrap();
    assert!(f.has_sql_declared_entity(&SqlDeclared::Function("Foo".to_string())));
    let e = SqlDeclaredEntity::build("Enum", "Foo").unwrap();
    assert!(e.has_sql_declared_entity(&SqlDeclared::Enum("Vec<Foo>".to_string())));
}

#[test]
fn descriptor_finds_the_first_entity_referred_to() {
    let descriptor = ExtensionSqlEntity {
        module: "ext",
        full_path: "ext::types",
        sql: "",
        file: "src/lib.rs",
        line: 1,
        name: "types",
        bootstrap: false,
        finalize: false,
        requires: vec![],
        creates: vec![
            SqlDeclaredEntity::build("Enum", "Foo").unwrap(),
            SqlDeclaredEntity::build("Type", "Bar").unwrap(),
            SqlDeclaredEntity::build("Type", "Foo").unwrap(),
        ],
    };
    let found = descriptor.has_sql_declared_entity(&SqlDeclared::Type("Vec<Foo>".to_string()));
    assert_eq!(found, Some(&descriptor.creates[2]));
    let found = descriptor.has_sql_declared_entity(&SqlDeclared::Enum("Foo".to_string()));
    assert_eq!(found, Some(&descriptor.creates[0]));
    assert_eq!(
        descriptor.has_sql_declared_entity(&SqlDeclared::Function("Foo".to_string())),
        None
    );
    assert_eq!(descriptor.dot_identifier(), "sql types");
    assert_eq!(descriptor.rust_identifier(), "types");
    assert_eq!(descriptor.file(), Some("src/lib.rs"));
    assert_eq!(descriptor.line(), Some(1));
    assert!(descriptor.is_admissible());
}

#[test]
fn descriptor_without_name_or_content_is_not_admissible() {
    let mut descriptor = ExtensionSqlEntity {
        module: "ext",
        full_path: "ext::x",
        sql: "",
        file: "src/lib.rs",
        line: 1,
        name: "x",
        bootstrap: false,
        finalize: false,
        requires: vec![],
        creates: vec![],
    };
    assert!(!descriptor.is_admissible());
    descriptor.sql = "SELECT 1;";
    assert!(descriptor.is_admissible());
    descriptor.name = "";
    assert!(!descriptor.is_admissible());
}

#[test]
fn searches_find_the_first_and_the_last() {
    let chars: Vec<char> = "a::b::c<d::e<f>>".chars().collect();
    assert_eq!(find_char(&chars, '<'), Some(7));
    assert_eq!(find_char(&chars, 'z'), None);
    assert_eq!(rfind_separator(&chars, 7), Some(4));
    assert_eq!(rfind_separator(&chars, 5), Some(1));
    assert_eq!(rfind_separator(&chars, 2), None);
    assert_eq!(rfind_separator(&chars, 0), None);
    assert_eq!(rfind_separator(&chars, chars.len()), Some(9));
    let colons: Vec<char> = ":::".chars().collect();
    assert_eq!(rfind_separator(&colons, 3), Some(1));
    assert_eq!(rfind_separator(&colons, 2), Some(0));
}
