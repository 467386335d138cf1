use import_parser::{parse_imports, Import};

fn full(code: &str) -> Vec<(String, u32, bool)> {
    parse_imports(code)
        .unwrap()
        .into_iter()
        .map(|i| (i.imported_object, i.line_number, i.typechecking_only))
        .collect()
}

#[test]
fn records_keep_source_order() {
    let text = "import z\nimport b; from a import (y,\n x)\nif TYPE_CHECKING:\n    import c\nimport d, a\n";
    let imports = parse_imports(text).unwrap();
    let lines: Vec<u32> = imports.iter().map(|i| i.line_number).collect();
    assert_eq!(vec![1, 2, 2, 2, 5, 6, 6], lines);
    let names: Vec<&str> = imports.iter().map(|i| i.imported_object.as_str()).collect();
    assert_eq!(vec!["z", "b", "a.y", "a.x", "c", "d", "a"], names);
}

#[test]
fn line_numbers_stay_within_the_text() {
    let text = "\n\nimport a\n\n\nimport b";
    let found = full(text);
    assert_eq!(vec![("a".to_owned(), 3, false), ("b".to_owned(), 6, false)], found);
}

#[test]
fn flags_follow_guarded_regions() {
    let text = "import a\nif TYPE_CHECKING:\n    import b\n    if TYPE_CHECKING:\n        import c\n    import d\nif other:\n    import e\nif typing.TYPE_CHECKING: from f import g\n";
    let flags: Vec<(String, bool)> = full(text).into_iter().map(|(n, _, f)| (n, f)).collect();
    assert_eq!(
        vec![
            ("a".to_owned(), false),
            ("b".to_owned(), true),
            ("c".to_owned(), true),
            ("d".to_owned(), true),
            ("e".to_owned(), false),
            ("f.g".to_owned(), true),
        ],
        flags
    );
}

#[test]
fn prepended_plain_code_only_moves_lines() {
    let text = "import a\nif TYPE_CHECKING:\n    from . import b\n";
    let prefix = "x = 1\n\n    y = (2,\n";
    let before = full(text);
    let after = full(&format!("{}{}", prefix, text));
    let moved: Vec<(String, u32, bool)> = before.into_iter().map(|(n, l, f)| (n, l + 3, f)).collect();
    assert_eq!(moved, after);
}

#[test]
fn comments_and_triple_quoted_text_yield_nothing() {
    assert!(full("# import x\n").is_empty());
    assert!(full("\"\"\"import x\"\"\"\n").is_empty());
    assert!(full("'''\nimport x\nfrom y import z\n'''\n").is_empty());
    assert_eq!(vec![("a".to_owned(), 1, false)], full("import a # import x\n"));
}

#[test]
fn line_contents_are_the_statement_text() {
    let imports = parse_imports("if TYPE_CHECKING: import a as b;from .m import (c,\n d) # x\n").unwrap();
    let contents: Vec<&str> = imports.iter().map(|i| i.line_contents.as_str()).collect();
    assert_eq!(vec!["import a as b", "from .m import (c,\n d)", "from .m import (c,\n d)"], contents);
}

#[test]
fn canonical_names_of_relative_imports() {
    let names: Vec<String> = full("from . import a\nfrom .. import *\nfrom .p import b\nfrom q import *\n")
        .into_iter()
        .map(|(n, _, _)| n)
        .collect();
    assert_eq!(vec![".a", "..*", ".p.b", "q.*"], names);
}

#[test]
fn edge_cases_of_the_driver() {
    assert!(full("   \n\t\n").is_empty());
    assert!(full("\"\"\"never closed\nimport a\n").len() == 1);
    assert_eq!(vec![("a".to_owned(), 2, false)], full("x = 1\r\nimport a\r\n"));
    assert_eq!(vec![("b".to_owned(), 1, false)], full("import b\rimport c\n"));
    assert!(full("importa\nimports = 1\nfrom x import\n").is_empty());
    assert!(full("if TYPE_CHECKING:\nimport a\n") == vec![("a".to_owned(), 2, false)]);
}

#[test]
fn new_keeps_fields() {
    let i = Import::new("os".to_owned(), 3, "import os".to_owned(), true);
    assert_eq!("os", i.imported_object);
    assert_eq!(3, i.line_number);
    assert_eq!("import os", i.line_contents);
    assert!(i.typechecking_only);
}

#[test]
fn appended_plain_code_changes_nothing() {
    let text = "import a\nif TYPE_CHECKING:\n    from b import (\n        c,\n    )\n";
    let suffix = "@decorator\nx = 1\n    y = [2]\n\n";
    assert_eq!(full(text), full(&format!("{}{}", text, suffix)));
    let contents_before: Vec<String> = parse_imports(text).unwrap().into_iter().map(|i| i.line_contents).collect();
    let contents_after: Vec<String> = parse_imports(&format!("{}{}", text, suffix)).unwrap().into_iter().map(|i| i.line_contents).collect();
    assert_eq!(contents_before, contents_after);
}

#[test]
fn appended_text_can_complete_an_open_statement() {
    // The appended line starts with a name, so it may continue the list.
    assert!(full("from a import (\n").is_empty());
    assert_eq!(vec![("a.b".to_owned(), 1, false)], full("from a import (\nb)\n"));
}
