use import_parser::nom;

fn names(code: &str) -> Vec<String> {
    nom::parse_imports(code)
        .unwrap()
        .into_iter()
        .map(|i| i.imported_object.to_owned())
        .collect()
}

#[test]
fn nom_test_parse_empty_string() {
    let imports = nom::parse_imports("").unwrap();
    assert!(imports.is_empty());
}

#[test]
fn test_parse_simple_import_statement() {
    let cases: Vec<(&str, Vec<&str>)> = vec![
        ("import foo", vec!["foo"]),
        ("import foo_FOO_123", vec!["foo_FOO_123"]),
        ("import foo.bar", vec!["foo.bar"]),
        ("import foo.bar.baz", vec!["foo.bar.baz"]),
        ("import foo, bar, bax", vec!["foo", "bar", "bax"]),
        ("import foo as FOO", vec!["foo"]),
        ("import foo as FOO, bar as BAR", vec!["foo", "bar"]),
        ("import  foo  as  FOO ,  bar  as  BAR", vec!["foo", "bar"]),
        ("import foo # Comment", vec!["foo"]),
    ];
    for (code, expected) in cases {
        assert_eq!(expected, names(code), "input: {:?}", code);
    }
}

#[test]
fn strict_lines_and_borrowed_names() {
    let text = "import a, b.c\nimport d # comment\n";
    let imports = nom::parse_imports(text).unwrap();
    let found: Vec<(&str, u32, bool)> = imports
        .iter()
        .map(|i| (i.imported_object, i.line_number, i.typechecking_only))
        .collect();
    assert_eq!(vec![("a", 1, false), ("b.c", 1, false), ("d", 2, false)], found);
}

#[test]
fn strict_rejects_other_text() {
    assert!(nom::parse_imports("x = 1\n").is_err());
    assert!(nom::parse_imports("import a\n\nimport b\n").is_err());
    assert!(nom::parse_imports("from a import b\n").is_err());
}

#[test]
fn strict_new_keeps_fields() {
    let i = nom::Import::new("pkg.mod", 7, true);
    assert_eq!("pkg.mod", i.imported_object);
    assert_eq!(7, i.line_number);
    assert!(i.typechecking_only);
}
