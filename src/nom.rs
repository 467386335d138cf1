//! A strict variant of the extractor for texts made only of `import`
//! statements, one per line, each with an optional trailing comment. Any
//! other text makes the whole parse fail.
use vstd::prelude::*;
use crate::window::window;
use crate::lexer::{
    comment_len, ident_len, module_len, spaces_len, starts_with, lemma_comment_bound,
    lemma_ident_bound, lemma_module_bound, lemma_spaces_bound, parse_comment, parse_identifier,
    parse_module, parse_spaces, tag,
};
use crate::records::{line_at, line_table, newlines};
use crate::chars_and_lines;

verus! {

broadcast use crate::window::lemma_window_skip;

/// One imported module, borrowed from the parsed text.
#[derive(Debug, Eq, PartialEq, Clone)]
pub struct Import<'a> {
    pub imported_object: &'a str,
    pub line_number: u32,
    pub typechecking_only: bool,
}

impl<'a> Import<'a> {
    pub fn new(imported_object: &'a str, line_number: u32, typechecking_only: bool) -> (r: Self)
        ensures
            r.imported_object@ == imported_object@,
            r.line_number == line_number,
            r.typechecking_only == typechecking_only,
    {
        Self { imported_object, line_number, typechecking_only }
    }
}

/// Spans moved `k` characters further into the text.
pub open spec fn shift_spans(spans: Seq<(nat, nat)>, k: nat) -> Seq<(nat, nat)> {
    spans.map_values(|p: (nat, nat)| (p.0 + k, p.1 + k))
}

/// ` as name`, with blanks made of spaces and tabs.
pub open spec fn blank_alias_len(t: Seq<char>) -> nat {
    let w = spaces_len(t);
    if w == 0 || !starts_with(t.skip(w as int), "as"@) {
        0
    } else {
        let w2 = spaces_len(t.skip((w + 2) as int));
        if w2 == 0 {
            0
        } else {
            let n = ident_len(t.skip((w + 2 + w2) as int));
            if n == 0 {
                0
            } else {
                w + 2 + w2 + n
            }
        }
    }
}

/// Comma-separated modules with optional aliases: the length and the span
/// of each module name.
#[verifier::opaque]
pub open spec fn module_spans(t: Seq<char>) -> Option<(nat, Seq<(nat, nat)>)>
    decreases t.len(),
{
    let m = module_len(t);
    if m == 0 {
        None
    } else {
        proof {
            lemma_blank_item_bound(t);
        }
        let e = m + blank_alias_len(t.skip(m as int));
        let a = e + spaces_len(t.skip(e as int));
        if a < t.len() && t[a as int] == ',' {
            let o = a + 1 + spaces_len(t.skip((a + 1) as int));
            proof {
                lemma_spaces_bound(t.skip((a + 1) as int));
            }
            match module_spans(t.skip(o as int)) {
                Some((n, spans)) => Some((o + n, seq![(0nat, m)] + shift_spans(spans, o))),
                None => Some((e, seq![(0nat, m)])),
            }
        } else {
            Some((e, seq![(0nat, m)]))
        }
    }
}

/// `import` and its modules, then blanks, an optional comment and an
/// optional line break.
pub open spec fn import_line(t: Seq<char>) -> Option<(nat, Seq<(nat, nat)>)> {
    if !starts_with(t, "import"@) {
        None
    } else {
        let a = 6 + spaces_len(t.skip(6));
        if a == 6 {
            None
        } else {
            match module_spans(t.skip(a as int)) {
                None => None,
                Some((n, spans)) => {
                    let b = a + n;
                    let c = b + spaces_len(t.skip(b as int));
                    let d = c + comment_len(t.skip(c as int));
                    let e: nat = if d < t.len() && t[d as int] == '\n' {
                        d + 1
                    } else {
                        d
                    };
                    Some((e, shift_spans(spans, a)))
                },
            }
        }
    }
}

/// The module spans of a text made only of import lines; `None` when
/// anything else stands in it.
#[verifier::opaque]
pub open spec fn import_lines(t: Seq<char>) -> Option<Seq<(nat, nat)>>
    decreases t.len(),
{
    if t.len() == 0 {
        Some(seq![])
    } else {
        match import_line(t) {
            None => None,
            Some((n, spans)) => {
                proof {
                    lemma_import_line_bound(t);
                }
                match import_lines(t.skip(n as int)) {
                    Some(rest) => Some(spans + shift_spans(rest, n)),
                    None => None,
                }
            },
        }
    }
}

pub proof fn lemma_blank_item_bound(t: Seq<char>)
    ensures
        module_len(t) + blank_alias_len(t.skip(module_len(t) as int)) <= t.len(),
        module_len(t) + blank_alias_len(t.skip(module_len(t) as int)) + spaces_len(
            t.skip((module_len(t) + blank_alias_len(t.skip(module_len(t) as int))) as int),
        ) <= t.len(),
{
    reveal_strlit("as");
    lemma_module_bound(t);
    let m = module_len(t);
    let u = t.skip(m as int);
    lemma_spaces_bound(u);
    let w = spaces_len(u);
    if w + 2 <= u.len() {
        lemma_spaces_bound(u.skip((w + 2) as int));
        let w2 = spaces_len(u.skip((w + 2) as int));
        lemma_ident_bound(u.skip((w + 2 + w2) as int));
    }
    let e = m + blank_alias_len(u);
    lemma_spaces_bound(t.skip(e as int));
}

pub proof fn lemma_module_spans_bound(t: Seq<char>)
    ensures
        module_spans(t) matches Some((n, spans)) ==> 0 < n <= t.len() && forall|k: int|
            0 <= k < spans.len() ==> (#[trigger] spans[k]).0 < spans[k].1 <= n,
    decreases t.len(),
{
    reveal_with_fuel(module_spans, 1);
    lemma_blank_item_bound(t);
    lemma_module_bound(t);
    let m = module_len(t);
    if m > 0 {
        let e = m + blank_alias_len(t.skip(m as int));
        let a = e + spaces_len(t.skip(e as int));
        if a < t.len() {
            lemma_spaces_bound(t.skip((a + 1) as int));
            let o = a + 1 + spaces_len(t.skip((a + 1) as int));
            lemma_module_spans_bound(t.skip(o as int));
            if let Some((n, spans)) = module_spans(t.skip(o as int)) {
                let all = seq![(0nat, m)] + shift_spans(spans, o);
                assert forall|k: int| 0 <= k < all.len() implies (#[trigger] all[k]).0 < all[k].1
                    <= o + n by {
                    if k > 0 {
                        assert(all[k] == shift_spans(spans, o)[k - 1]);
                    }
                }
            }
        }
    }
}

pub proof fn lemma_import_line_bound(t: Seq<char>)
    ensures
        import_line(t) matches Some((n, spans)) ==> 0 < n <= t.len() && forall|k: int|
            0 <= k < spans.len() ==> (#[trigger] spans[k]).0 < spans[k].1 <= n,
{
    reveal_strlit("import");
    if t.len() >= 6 {
        lemma_spaces_bound(t.skip(6));
        let a = 6 + spaces_len(t.skip(6));
        lemma_module_spans_bound(t.skip(a as int));
        if let Some((n, spans)) = module_spans(t.skip(a as int)) {
            let b = a + n;
            lemma_spaces_bound(t.skip(b as int));
            let c = b + spaces_len(t.skip(b as int));
            lemma_comment_bound(t.skip(c as int));
            let sh = shift_spans(spans, a);
            assert forall|k: int| 0 <= k < sh.len() implies (#[trigger] sh[k]).0 < sh[k].1 <= a + n by {
                assert(sh[k] == (spans[k].0 + a, spans[k].1 + a));
            }
        }
    }
}

pub proof fn lemma_import_lines_bound(t: Seq<char>)
    ensures
        import_lines(t) matches Some(spans) ==> forall|k: int|
            0 <= k < spans.len() ==> (#[trigger] spans[k]).0 < spans[k].1 <= t.len(),
    decreases t.len(),
{
    reveal_with_fuel(import_lines, 1);
    lemma_import_line_bound(t);
    if t.len() > 0 {
        if let Some((n, spans)) = import_line(t) {
            lemma_import_lines_bound(t.skip(n as int));
            if let Some(rest) = import_lines(t.skip(n as int)) {
                let all = spans + shift_spans(rest, n);
                assert forall|k: int| 0 <= k < all.len() implies (#[trigger] all[k]).0 < all[k].1
                    <= t.len() by {
                    if k >= spans.len() {
                        assert(all[k] == shift_spans(rest, n)[k - spans.len()]);
                    }
                }
            }
        }
    }
}

pub proof fn lemma_module_spans_step(s: Seq<char>, i: int, lim: int)
    requires
        0 <= i <= lim <= s.len(),
    ensures
        ({
            let t = window(s, i, lim);
            let m = module_len(t);
            let e = m + blank_alias_len(window(s, i + m, lim));
            let a = e + spaces_len(window(s, i + e, lim));
            let o = a + 1 + spaces_len(window(s, i + a + 1, lim));
            module_spans(t) == if m == 0 {
                None
            } else if a < t.len() && s[i + a] == ',' {
                match module_spans(window(s, i + o, lim)) {
                    Some((n, spans)) => Some((o + n, seq![(0nat, m)] + shift_spans(spans, o))),
                    None => Some((e, seq![(0nat, m)])),
                }
            } else {
                Some((e, seq![(0nat, m)]))
            }
        }),
{
    reveal_with_fuel(module_spans, 1);
    let t = window(s, i, lim);
    lemma_blank_item_bound(t);
    let m = module_len(t);
    let e = m + blank_alias_len(t.skip(m as int));
    let a = e + spaces_len(t.skip(e as int));
    if a < t.len() {
        lemma_spaces_bound(t.skip((a + 1) as int));
    }
}

// Executable parsers over `v[i..lim]`.

pub fn parse_blank_alias(v: &Vec<char>, i: usize, lim: usize) -> (r: usize)
    requires
        i <= lim <= v@.len(),
    ensures
        r == i + blank_alias_len(window(v@, i as int, lim as int)),
        r <= lim,
{
    proof {
        reveal_strlit("as");
    }
    let w = parse_spaces(v, i, lim);
    if w == i || !tag(v, w, lim, "as") {
        return i;
    }
    let x = parse_spaces(v, w + 2, lim);
    if x == w + 2 {
        return i;
    }
    let n = parse_identifier(v, x, lim);
    if n == x {
        return i;
    }
    n
}

pub open spec fn spans_at(r: Vec<(usize, usize)>, base: nat, spans: Seq<(nat, nat)>) -> bool {
    &&& r@.len() == spans.len()
    &&& forall|k: int|
        0 <= k < spans.len() ==> (#[trigger] r@[k]).0 == base + spans[k].0 && r@[k].1 == base
            + spans[k].1
}

/// Comma-separated modules at `i`: where they end and the module spans.
pub fn parse_module_spans(v: &Vec<char>, i: usize, lim: usize) -> (r: Option<
    (usize, Vec<(usize, usize)>),
>)
    requires
        i <= lim <= v@.len(),
    ensures
        match module_spans(window(v@, i as int, lim as int)) {
            Some((n, spans)) => r matches Some((e, found)) && e == i + n && spans_at(
                found,
                i as nat,
                spans,
            ),
            None => r is None,
        },
    decreases lim - i,
{
    proof {
        lemma_module_spans_step(v@, i as int, lim as int);
    }
    let m = parse_module(v, i, lim);
    if m == i {
        return None;
    }
    let e = parse_blank_alias(v, m, lim);
    let a = parse_spaces(v, e, lim);
    let mut found: Vec<(usize, usize)> = Vec::new();
    found.push((i, m));
    if a < lim && v[a] == ',' {
        let o = parse_spaces(v, a + 1, lim);
        match parse_module_spans(v, o, lim) {
            Some((n, more)) => {
                let mut k: usize = 0;
                let ghost spans = module_spans(window(v@, o as int, lim as int)).unwrap().1;
                let ghost all = seq![(0nat, (m - i) as nat)] + shift_spans(spans, (o - i) as nat);
                while k < more.len()
                    invariant
                        k <= more@.len(),
                        i <= o <= lim,
                        spans_at(more, o as nat, spans),
                        found@.len() == k + 1,
                        found@[0] == (i, m),
                        forall|j: int| 0 <= j < k ==> (#[trigger] found@[j + 1]) == more@[j],
                    decreases more@.len() - k,
                {
                    found.push(more[k]);
                    k = k + 1;
                }
                proof {
                    assert forall|j: int| 0 <= j < all.len() implies (#[trigger] found@[j]).0 == i
                        + all[j].0 && found@[j].1 == i + all[j].1 by {
                        if j > 0 {
                            assert(found@[(j - 1) + 1] == more@[j - 1]);
                            assert(all[j] == shift_spans(spans, (o - i) as nat)[j - 1]);
                        }
                    }
                }
                Some((n, found))
            },
            None => Some((e, found)),
        }
    } else {
        Some((e, found))
    }
}

/// One import line at `i`.
pub fn parse_import_statement(v: &Vec<char>, i: usize, lim: usize) -> (r: Option<
    (usize, Vec<(usize, usize)>),
>)
    requires
        i <= lim <= v@.len(),
    ensures
        match import_line(window(v@, i as int, lim as int)) {
            Some((n, spans)) => r matches Some((e, found)) && e == i + n && spans_at(
                found,
                i as nat,
                spans,
            ),
            None => r is None,
        },
{
    let ghost t = window(v@, i as int, lim as int);
    proof {
        reveal_strlit("import");
        lemma_import_line_bound(t);
    }
    if !tag(v, i, lim, "import") {
        return None;
    }
    let a = parse_spaces(v, i + 6, lim);
    if a == i + 6 {
        return None;
    }
    proof {
        lemma_module_spans_bound(window(v@, a as int, lim as int));
    }
    let (n, found) = match parse_module_spans(v, a, lim) {
        Some(x) => x,
        None => return None,
    };
    let c = parse_spaces(v, n, lim);
    let d = parse_comment(v, c, lim);
    let e = if d < lim && v[d] == '\n' {
        assert(t[d - i] == v@[d as int]);
        d + 1
    } else {
        assert(d < lim ==> t[d - i] == v@[d as int]);
        d
    };
    proof {
        let spans = module_spans(window(v@, a as int, lim as int)).unwrap().1;
        let sh = shift_spans(spans, (a - i) as nat);
        assert forall|k: int| 0 <= k < sh.len() implies (#[trigger] found@[k]).0 == i + sh[k].0
            && found@[k].1 == i + sh[k].1 by {
            assert(found@[k].0 == a + spans[k].0);
        }
    }
    Some((e, found))
}

pub proof fn lemma_import_lines_step(s: Seq<char>, i: int, lim: int)
    requires
        0 <= i <= lim <= s.len(),
    ensures
        ({
            let t = window(s, i, lim);
            import_lines(t) == if t.len() == 0 {
                Some(Seq::<(nat, nat)>::empty())
            } else {
                match import_line(t) {
                    None => None,
                    Some((n, spans)) => match import_lines(window(s, i + n, lim)) {
                        Some(rest) => Some(spans + shift_spans(rest, n)),
                        None => None,
                    },
                }
            }
        }),
{
    reveal_with_fuel(import_lines, 1);
    lemma_import_line_bound(window(s, i, lim));
}

/// Extracts the modules of a text made only of `import` lines.
///
/// Fails when anything else stands in the text, or when it has more lines
/// than a `u32` line number can count.
pub fn parse_imports(s: &str) -> (r: Result<Vec<Import<'_>>, String>)
    ensures
        r is Ok <==> newlines(s@) < u32::MAX && import_lines(s@) is Some,
        r matches Ok(imports) ==> ({
            let spans = import_lines(s@).unwrap();
            &&& imports@.len() == spans.len()
            &&& forall|k: int|
                0 <= k < spans.len() ==> {
                    &&& (#[trigger] imports@[k]).imported_object@ == s@.subrange(
                        spans[k].0 as int,
                        spans[k].1 as int,
                    )
                    &&& imports@[k].line_number as int == line_at(s@, spans[k].0 as int)
                    &&& !imports@[k].typechecking_only
                }
        }),
{
    let (v, lines) = match chars_and_lines(s) {
        Some(x) => x,
        None => {
            return Err(String::from_str("the text has more lines than a line number can count"));
        },
    };
    let lim = v.len();
    proof {
        assert(window(v@, 0, lim as int) =~= s@);
        lemma_import_lines_bound(s@);
    }
    let mut found: Vec<(usize, usize)> = Vec::new();
    let mut i: usize = 0;
    let ghost mut done: Seq<(nat, nat)> = Seq::empty();
    while i < lim
        invariant
            i <= lim == v@.len(),
            v@ == s@,
            spans_at(found, 0, done),
            import_lines(s@) == match import_lines(window(v@, i as int, lim as int)) {
                Some(rest) => Some(done + shift_spans(rest, i as nat)),
                None => None::<Seq<(nat, nat)>>,
            },
        decreases lim - i,
    {
        proof {
            lemma_import_lines_step(v@, i as int, lim as int);
            lemma_import_line_bound(window(v@, i as int, lim as int));
        }
        let (n, more) = match parse_import_statement(&v, i, lim) {
            Some(x) => x,
            None => {
                return Err(String::from_str("the text holds more than import statements"));
            },
        };
        let ghost spans = import_line(window(v@, i as int, lim as int)).unwrap().1;
        let mut k: usize = 0;
        let ghost start = found@.len();
        while k < more.len()
            invariant
                k <= more@.len(),
                spans_at(more, i as nat, spans),
                found@.len() == start + k,
                start == done.len(),
                forall|j: int| 0 <= j < start ==> (#[trigger] found@[j]).0 == done[j].0
                    && found@[j].1 == done[j].1,
                forall|j: int| 0 <= j < k ==> (#[trigger] found@[start + j]) == more@[j],
            decreases more@.len() - k,
        {
            found.push(more[k]);
            k = k + 1;
        }
        proof {
            let new_done = done + shift_spans(spans, i as nat);
            assert forall|j: int| 0 <= j < new_done.len() implies (#[trigger] found@[j]).0 == 0
                + new_done[j].0 && found@[j].1 == 0 + new_done[j].1 by {
                if j >= start {
                    assert(found@[start + (j - start)] == more@[j - start]);
                }
            }
            let rest = import_lines(window(v@, n as int, lim as int));
            if let Some(r) = rest {
                assert(done + shift_spans(spans + shift_spans(r, (n - i) as nat), i as nat) =~= new_done
                    + shift_spans(r, n as nat));
            }
            done = new_done;
        }
        i = n;
    }
    proof {
        lemma_import_lines_step(v@, lim as int, lim as int);
        assert(done + shift_spans(Seq::empty(), lim as nat) =~= done);
    }
    let mut imports: Vec<Import> = Vec::new();
    let mut k: usize = 0;
    while k < found.len()
        invariant
            k <= found@.len(),
            v@ == s@,
            line_table(lines@, v@),
            import_lines(s@) == Some(done),
            spans_at(found, 0, done),
            forall|j: int| 0 <= j < done.len() ==> (#[trigger] done[j]).0 < done[j].1 <= s@.len(),
            imports@.len() == k,
            forall|j: int|
                0 <= j < k ==> {
                    &&& (#[trigger] imports@[j]).imported_object@ == s@.subrange(
                        done[j].0 as int,
                        done[j].1 as int,
                    )
                    &&& imports@[j].line_number as int == line_at(s@, done[j].0 as int)
                    &&& !imports@[j].typechecking_only
                },
        decreases found@.len() - k,
    {
        let (a, b) = found[k];
        assert(a == done[k as int].0 && b == done[k as int].1);
        assert(done[k as int].0 < done[k as int].1 <= s@.len());
        let line = lines[a];
        imports.push(Import::new(s.substring_char(a, b), line, false));
        k = k + 1;
    }
    Ok(imports)
}

} // verus!
