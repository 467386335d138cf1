use import_parser::parse_imports;

fn full(code: &str) -> Vec<(String, u32, bool)> {
    parse_imports(code)
        .unwrap()
        .into_iter()
        .map(|i| (i.imported_object, i.line_number, i.typechecking_only))
        .collect()
}

fn owned(expected: &[(&str, u32, bool)]) -> Vec<(String, u32, bool)> {
    expected.iter().map(|(n, l, f)| (n.to_string(), *l, *f)).collect()
}

#[test]
fn simple_import_list() {
    assert_eq!(owned(&[("os", 1, false), ("sys", 1, false)]), full("import os, sys\n"));
}

#[test]
fn relative_from_import_with_alias() {
    assert_eq!(
        owned(&[(".pkg.a", 1, false), (".pkg.b", 1, false)]),
        full("from .pkg import a as A, b\n")
    );
}

#[test]
fn pure_dot_relative_imports() {
    assert_eq!(
        owned(&[(".x", 1, false), ("..*", 2, false)]),
        full("from . import x\nfrom .. import *\n")
    );
}

#[test]
fn parenthesised_import_over_four_lines() {
    assert_eq!(
        owned(&[("foo.a", 1, false), ("foo.b", 1, false), ("foo.c", 1, false)]),
        full("from foo import (\n    a, b,\n    c,\n)\n")
    );
}

#[test]
fn typing_guard_block() {
    assert_eq!(
        owned(&[("typing", 1, false), ("foo", 3, true), ("bar", 4, false)]),
        full("import typing\nif typing.TYPE_CHECKING:\n    import foo\nimport bar\n")
    );
}

#[test]
fn docstring_inline_guard_and_nested_import() {
    assert_eq!(
        owned(&[("a", 4, true), ("b", 4, true), ("nested", 6, false)]),
        full(
            "\"\"\"\nimport hidden\n\"\"\"\nif TYPE_CHECKING: import a; import b  # c\ndef f():\n    import nested\n"
        )
    );
}
