use import_parser::parse_imports;

fn names(code: &str) -> Vec<String> {
    parse_imports(code)
        .unwrap()
        .into_iter()
        .map(|i| i.imported_object)
        .collect()
}

fn names_and_flags(code: &str) -> Vec<(String, bool)> {
    parse_imports(code)
        .unwrap()
        .into_iter()
        .map(|i| (i.imported_object, i.typechecking_only))
        .collect()
}

fn full(code: &str) -> Vec<(String, u32, bool)> {
    parse_imports(code)
        .unwrap()
        .into_iter()
        .map(|i| (i.imported_object, i.line_number, i.typechecking_only))
        .collect()
}

fn check(code: &str, expected: &[&str]) {
    assert_eq!(expected.to_vec(), names(code), "input: {:?}", code);
}

fn check_flags(code: &str, expected: &[(&str, bool)]) {
    let expected: Vec<(String, bool)> = expected.iter().map(|(n, f)| (n.to_string(), *f)).collect();
    assert_eq!(expected, names_and_flags(code), "input: {:?}", code);
}

#[test]
fn lib_test_parse_empty_string() {
    let imports = parse_imports("").unwrap();
    assert!(imports.is_empty());
}

#[test]
fn test_parse_line_numbers() {
    let imports = parse_imports(
        "
import a
from b import c
from d import (e)
from f import *",
    )
    .unwrap();
    assert_eq!(
        vec![
            ("a".to_owned(), 2_u32),
            ("b.c".to_owned(), 3_u32),
            ("d.e".to_owned(), 4_u32),
            ("f.*".to_owned(), 5_u32),
        ],
        imports
            .into_iter()
            .map(|i| (i.imported_object, i.line_number))
            .collect::<Vec<_>>()
    );
}

#[test]
fn test_parse_line_numbers_if_typechecking() {
    let imports = parse_imports(
        "
import a
if TYPE_CHECKING:
    from b import c
from d import (e)
if TYPE_CHECKING:
    from f import *",
    )
    .unwrap();
    assert_eq!(
        vec![
            ("a".to_owned(), 2_u32, false),
            ("b.c".to_owned(), 4_u32, true),
            ("d.e".to_owned(), 5_u32, false),
            ("f.*".to_owned(), 7_u32, true),
        ],
        imports
            .into_iter()
            .map(|i| (i.imported_object, i.line_number, i.typechecking_only))
            .collect::<Vec<_>>()
    );
}

#[test]
fn test_parse_line_contents() {
    let imports = parse_imports(
        "
import a
from b import c
from d import (e)
from f import *",
    )
    .unwrap();
    assert_eq!(
        vec![
            ("a".to_owned(), "import a".to_owned()),
            ("b.c".to_owned(), "from b import c".to_owned()),
            ("d.e".to_owned(), "from d import (e)".to_owned()),
            ("f.*".to_owned(), "from f import *".to_owned()),
        ],
        imports
            .into_iter()
            .map(|i| (i.imported_object, i.line_contents))
            .collect::<Vec<_>>()
    );
}

#[test]
fn test_parse_import_statement() {
    check("import foo", &["foo"]);
    check("import foo_FOO_123", &["foo_FOO_123"]);
    check("import foo.bar", &["foo.bar"]);
    check("import foo.bar.baz", &["foo.bar.baz"]);
    check("import foo, bar, bax", &["foo", "bar", "bax"]);
    check("import foo as FOO", &["foo"]);
    check("import foo as FOO, bar as BAR", &["foo", "bar"]);
    check("import  foo  as  FOO ,  bar  as  BAR", &["foo", "bar"]);
    check("import foo # Comment", &["foo"]);
}

#[test]
fn test_parse_from_import_statement() {
    check("from foo import bar", &["foo.bar"]);
    check("from foo import bar_BAR_123", &["foo.bar_BAR_123"]);
    check("from .foo import bar", &[".foo.bar"]);
    check("from ..foo import bar", &["..foo.bar"]);
    check("from . import foo", &[".foo"]);
    check("from .. import foo", &["..foo"]);
    check("from foo.bar import baz", &["foo.bar.baz"]);
    check("from .foo.bar import baz", &[".foo.bar.baz"]);
    check("from ..foo.bar import baz", &["..foo.bar.baz"]);
    check("from foo import bar, baz, bax", &["foo.bar", "foo.baz", "foo.bax"]);
    check("from foo import bar as BAR", &["foo.bar"]);
    check("from foo import bar as BAR, baz as BAZ", &["foo.bar", "foo.baz"]);
    check("from  foo  import  bar  as  BAR ,  baz  as  BAZ", &["foo.bar", "foo.baz"]);
    check("from foo import bar # Comment", &["foo.bar"]);
}

#[test]
fn test_parse_multiline_from_import_statement() {
    check("from foo import (bar)", &["foo.bar"]);
    check("from foo import (bar,)", &["foo.bar"]);
    check("from foo import (bar, baz)", &["foo.bar", "foo.baz"]);
    check("from foo import (bar, baz,)", &["foo.bar", "foo.baz"]);
    check("from foo import (bar as BAR, baz as BAZ,)", &["foo.bar", "foo.baz"]);
    check("from  foo  import  ( bar  as  BAR , baz  as  BAZ , )", &["foo.bar", "foo.baz"]);
    check("from foo import (bar, baz,) # Comment", &["foo.bar", "foo.baz"]);
    check("\nfrom foo import (\n    bar,\n    baz\n)\n        ", &["foo.bar", "foo.baz"]);
    check("\nfrom foo import (\n    bar,\n    baz,\n)\n        ", &["foo.bar", "foo.baz"]);
    check(
        "\nfrom foo import (\n    a, b,\n    c, d,\n)\n        ",
        &["foo.a", "foo.b", "foo.c", "foo.d"],
    );
    check(
        "\nfrom foo import (\n    bar as BAR,\n    baz as BAZ,\n)\n        ",
        &["foo.bar", "foo.baz"],
    );
    check(
        "\nfrom  foo  import  (\n\n    bar  as  BAR ,\n\n       baz  as  BAZ ,\n\n)\n        ",
        &["foo.bar", "foo.baz"],
    );
    check(
        "\nfrom foo import ( # C\n    # C\n    bar as BAR, # C\n    # C\n    baz as BAZ, # C\n    # C\n) # C\n        ",
        &["foo.bar", "foo.baz"],
    );
}

#[test]
fn test_parse_wildcard_from_import_statement() {
    check("from foo import *", &["foo.*"]);
    check("from .foo import *", &[".foo.*"]);
    check("from ..foo import *", &["..foo.*"]);
    check("from . import *", &[".*"]);
    check("from .. import *", &["..*"]);
    check("from  foo  import  *", &["foo.*"]);
    check("from foo import * # Comment", &["foo.*"]);
}

#[test]
fn test_parse_import_statement_list() {
    check("import a; import b", &["a", "b"]);
    check("import a; import b;", &["a", "b"]);
    check("import  a ;  import  b ;", &["a", "b"]);
    check("import a; import b # Comment", &["a", "b"]);
    check(
        "import a; from b import c; from d import (e); from f import *",
        &["a", "b.c", "d.e", "f.*"],
    );
}

#[test]
fn test_backslash_continuation() {
    check("\nimport a, b, \\\n       c, d\n        ", &["a", "b", "c", "d"]);
    check(
        "\nfrom foo import a, b, \\\n                c, d\n        ",
        &["foo.a", "foo.b", "foo.c", "foo.d"],
    );
    check("\nfrom foo \\\n    import *\n        ", &["foo.*"]);
}

#[test]
fn test_parse_nested_imports() {
    check("\nimport a\ndef foo():\n    import b \nimport c\n        ", &["a", "b", "c"]);
    check("\nimport a\nclass Foo:\n    import b\nimport c\n        ", &["a", "b", "c"]);
}

#[test]
fn test_singleline_if_typechecking() {
    let expected = [("foo", false), ("bar", true), ("baz", false)];
    check_flags("\nimport foo\nif typing.TYPE_CHECKING: import bar\nimport baz\n", &expected);
    check_flags("\nimport foo\nif TYPE_CHECKING: import bar\nimport baz\n", &expected);
    check_flags("\nimport foo\nif  TYPE_CHECKING :  import bar\nimport baz\n", &expected);
    check_flags("\nimport foo\nif TYPE_CHECKING: import bar as BAR\nimport baz\n", &expected);
    check_flags("\nimport foo # C\nif TYPE_CHECKING: import bar # C\nimport baz # C\n", &expected);
}

#[test]
fn test_multiline_if_typechecking() {
    let expected = [("foo", false), ("bar", true), ("baz", false)];
    check_flags("\nimport foo\nif typing.TYPE_CHECKING:\n    import bar\nimport baz\n", &expected);
    check_flags("\nimport foo\nif TYPE_CHECKING:\n    import bar\nimport baz\n", &expected);
    check_flags(
        "\nimport  foo\n\nif  TYPE_CHECKING :\n\n    import  bar\n\nimport  baz\n",
        &expected,
    );
    check_flags("\nimport foo\nif TYPE_CHECKING:\n    import bar as BAR\nimport baz\n", &expected);
    check_flags(
        "\nimport foo # C\nif TYPE_CHECKING: # C\n    # C\n    import bar # C\n    # C\nimport baz # C\n",
        &expected,
    );
    check_flags(
        "\nimport foo\nif TYPE_CHECKING:\n    \"\"\"\n    Comment\n    \"\"\"\n    import bar\nimport baz\n",
        &expected,
    );
}

#[test]
fn test_multiline_strings() {
    check("\nimport foo\n\"\"\"\nimport bar\n\"\"\"\nimport baz\n", &["foo", "baz"]);
    check("\nimport foo\n\"\"\"\nimport bar\n\"\"\" # foo\nimport baz\n", &["foo", "baz"]);
    check("\nimport foo\n'''\nimport bar\n'''\nimport baz\n", &["foo", "baz"]);
}
