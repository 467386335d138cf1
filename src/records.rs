//! The mathematical model of what the extractor reports, and how the
//! executable `Import` values relate to it.
use vstd::prelude::*;
use crate::Import;

verus! {

/// One import found by the parser. `start` is the offset of the statement
/// in the text it was parsed from; `contents` is the statement's text.
pub struct Rec {
    pub name: Seq<char>,
    pub start: nat,
    pub contents: Seq<char>,
    pub tc: bool,
}

/// The same records, found in a text that starts `k` characters earlier.
pub open spec fn shift(recs: Seq<Rec>, k: nat) -> Seq<Rec> {
    recs.map_values(|r: Rec| Rec { start: r.start + k, ..r })
}

pub open spec fn newlines(t: Seq<char>) -> nat
    decreases t.len(),
{
    if t.len() == 0 {
        0
    } else {
        newlines(t.drop_last()) + if t.last() == '\n' {
            1nat
        } else {
            0nat
        }
    }
}

/// The 1-based line on which offset `pos` of `s` lies.
pub open spec fn line_at(s: Seq<char>, pos: int) -> int {
    1 + newlines(s.subrange(0, pos)) as int
}

/// The number of lines of `s`: a last line without a terminator counts too.
pub open spec fn number_of_lines(s: Seq<char>) -> int {
    newlines(s) as int + if s.len() > 0 && s.last() != '\n' {
        1int
    } else {
        0int
    }
}

/// `imp` reports `r`, found at offset `base` of `s`.
pub open spec fn describes(imp: Import, s: Seq<char>, base: int, r: Rec) -> bool {
    &&& imp.imported_object@ == r.name
    &&& imp.line_number as int == line_at(s, base + r.start)
    &&& imp.line_contents@ == r.contents
    &&& imp.typechecking_only == r.tc
}

/// `out` is `before` followed by imports that report `recs`.
pub open spec fn appended(
    out: Seq<Import>,
    before: Seq<Import>,
    s: Seq<char>,
    base: int,
    recs: Seq<Rec>,
) -> bool {
    &&& out.len() == before.len() + recs.len()
    &&& forall|k: int| 0 <= k < before.len() ==> out[k] == before[k]
    &&& forall|k: int|
        0 <= k < recs.len() ==> #[trigger] describes(out[before.len() + k], s, base, recs[k])
}

/// A table of the line of every offset of `s`.
pub open spec fn line_table(lines: Seq<u32>, s: Seq<char>) -> bool {
    &&& lines.len() == s.len()
    &&& forall|k: int| 0 <= k < s.len() ==> #[trigger] lines[k] as int == line_at(s, k)
}

pub proof fn lemma_newlines_prefix(s: Seq<char>, n: int)
    requires
        0 <= n <= s.len(),
    ensures
        newlines(s.subrange(0, n)) <= newlines(s),
    decreases s.len() - n,
{
    if n < s.len() {
        lemma_newlines_prefix(s, n + 1);
        assert(s.subrange(0, n + 1).drop_last() =~= s.subrange(0, n));
    } else {
        assert(s.subrange(0, n) =~= s);
    }
}

pub proof fn lemma_shift_shift(recs: Seq<Rec>, a: nat, b: nat)
    ensures
        shift(shift(recs, a), b) == shift(recs, a + b),
{
    assert(shift(shift(recs, a), b) =~= shift(recs, a + b));
}

pub proof fn lemma_shift_concat(x: Seq<Rec>, y: Seq<Rec>, k: nat)
    ensures
        shift(x + y, k) == shift(x, k) + shift(y, k),
{
    assert(shift(x + y, k) =~= shift(x, k) + shift(y, k));
}

pub proof fn lemma_shift_zero(recs: Seq<Rec>)
    ensures
        shift(recs, 0) == recs,
{
    assert(shift(recs, 0) =~= recs);
}

pub proof fn lemma_appended_concat(
    out: Seq<Import>,
    mid: Seq<Import>,
    before: Seq<Import>,
    s: Seq<char>,
    base: int,
    recs1: Seq<Rec>,
    k: nat,
    recs2: Seq<Rec>,
)
    requires
        appended(mid, before, s, base, recs1),
        appended(out, mid, s, base + k, recs2),
    ensures
        appended(out, before, s, base, recs1 + shift(recs2, k)),
{
    let all = recs1 + shift(recs2, k);
    assert forall|j: int| 0 <= j < all.len() implies #[trigger] describes(
        out[before.len() + j],
        s,
        base,
        all[j],
    ) by {
        if j < recs1.len() {
            assert(describes(mid[before.len() + j], s, base, recs1[j]));
        } else {
            let j2 = j - recs1.len();
            assert(describes(out[mid.len() + j2], s, base + k, recs2[j2]));
            assert(out[mid.len() + j2] == out[before.len() + j]);
        }
    }
}

} // verus!
