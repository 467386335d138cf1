//! Extraction of the module imports of Python source text.
use vstd::prelude::*;
use crate::block::{block_records, parse_block};
use crate::records::{Rec, describes, line_at, line_table, newlines, lemma_newlines_prefix};

pub mod window;
pub mod lexer;
pub mod records;
pub mod statements;
pub mod block;
pub mod laws;
pub mod nom;
pub mod appending;

verus! {

/// One import statement target found in the source text.
#[derive(Debug, Eq, PartialEq, Clone)]
pub struct Import {
    /// The dotted name, with relative prefixes kept (`.pkg.mod`, `foo.*`).
    pub imported_object: String,
    /// The 1-based line where the statement begins.
    pub line_number: u32,
    /// The statement's text, from its keyword to its last token.
    pub line_contents: String,
    /// Whether the statement lies under an `if TYPE_CHECKING:` guard.
    pub typechecking_only: bool,
}

impl Import {
    pub fn new(
        imported_object: String,
        line_number: u32,
        line_contents: String,
        typechecking_only: bool,
    ) -> (r: Self)
        ensures
            r.imported_object@ == imported_object@,
            r.line_number == line_number,
            r.line_contents@ == line_contents@,
            r.typechecking_only == typechecking_only,
    {
        Self { imported_object, line_number, line_contents, typechecking_only }
    }
}

/// The imports reported for the source text `s`, in source order.
pub open spec fn extracted(s: Seq<char>) -> Seq<Rec> {
    block_records(s, false)
}

/// `imports` reports exactly `extracted(s)`, one import per record.
pub open spec fn reports(imports: Seq<Import>, s: Seq<char>) -> bool {
    &&& imports.len() == extracted(s).len()
    &&& forall|k: int|
        0 <= k < imports.len() ==> #[trigger] describes(imports[k], s, 0, extracted(s)[k])
}

proof fn lemma_newlines_push(t: Seq<char>, c: char)
    ensures
        newlines(t.push(c)) == newlines(t) + if c == '\n' {
            1nat
        } else {
            0nat
        },
{
    assert(t.push(c).drop_last() =~= t);
}

/// The characters of `s` and the line of each, or `None` when `s` has more
/// lines than a `u32` line number can count.
pub fn chars_and_lines(s: &str) -> (r: Option<(Vec<char>, Vec<u32>)>)
    ensures
        r is None <==> newlines(s@) >= u32::MAX,
        r matches Some((v, lines)) ==> v@ == s@ && line_table(lines@, v@),
{
    broadcast use vstd::string::group_string_axioms;

    let mut v: Vec<char> = Vec::new();
    let mut lines: Vec<u32> = Vec::new();
    let mut line: u32 = 1;
    for c in it: s.chars()
        invariant
            it.seq() == s@,
            v@ == s@.subrange(0, it.index()),
            line_table(lines@, v@),
            line as int == 1 + newlines(v@),
    {
        let ghost before = v@;
        v.push(c);
        lines.push(line);
        proof {
            lemma_newlines_push(before, c);
            assert forall|k: int| 0 <= k < v@.len() implies #[trigger] lines@[k] as int == line_at(
                v@,
                k,
            ) by {
                assert(v@.subrange(0, k) =~= if k < before.len() {
                    before.subrange(0, k)
                } else {
                    before
                });
            }
            assert(v@ =~= s@.subrange(0, it.index() + 1));
        }
        if c == '\n' {
            if line == u32::MAX {
                proof {
                    lemma_newlines_prefix(s@, v@.len() as int);
                }
                return None;
            }
            line = line + 1;
        }
    }
    proof {
        assert(v@ =~= s@);
    }
    Some((v, lines))
}

/// Extracts the imports of the source text `s`.
///
/// Every text is parsed to the end; the only error is a text with more
/// lines than a `u32` line number can count.
pub fn parse_imports(s: &str) -> (r: Result<Vec<Import>, String>)
    ensures
        r is Err <==> newlines(s@) >= u32::MAX,
        r matches Ok(imports) ==> reports(imports@, s@),
{
    let (v, lines) = match chars_and_lines(s) {
        Some(x) => x,
        None => {
            return Err(String::from_str("the text has more lines than a line number can count"));
        },
    };
    let mut out: Vec<Import> = Vec::new();
    parse_block(&v, &lines, 0, v.len(), false, &mut out);
    proof {
        assert(crate::window::window(v@, 0, v@.len() as int) =~= s@);
        assert forall|k: int| 0 <= k < out@.len() implies #[trigger] describes(
            out@[k],
            s@,
            0,
            extracted(s@)[k],
        ) by {
            assert(describes(out@[0 + k], v@, 0, extracted(s@)[k]));
        }
    }
    Ok(out)
}

/// Relies on `String`'s `FromIterator<&char>`: the string holds the given
/// characters, in order.
#[verifier::external_body]
pub(crate) fn string_from_chars(chars: &Vec<char>) -> (r: String)
    ensures
        r@ == chars@,
{
    chars.iter().collect()
}

} // verus!
