//! The four import statement forms and `;`-separated lists of them.
use vstd::prelude::*;
use crate::window::window;
use crate::lexer::{filler_len, hspace_len, ident_len, lemma_filler_bound, lemma_hspace_bound, lemma_ident_bound, lemma_module_bound, lemma_multispace_bound, lemma_relative_module_bound, module_len, multispace_len, relative_module_len, starts_with};
use crate::records::{Rec, shift, appended, line_table, describes, lemma_shift_shift, lemma_shift_concat, lemma_appended_concat};
use crate::lexer::{tag, parse_space0, parse_multispace0, parse_identifier, parse_module, parse_relative_module, parse_multispace0_or_comment};
use crate::string_from_chars;
use crate::Import;

verus! {

broadcast use crate::window::lemma_window_skip;

/// What a list of imported items is made of.
#[derive(Clone, Copy)]
pub enum ListForm {
    /// `import a.b as c, d`: dotted modules, blanks between tokens.
    Modules,
    /// `from m import a as b, c`: identifiers, blanks between tokens.
    Names,
    /// `from m import (a as b, c,)`: identifiers, line breaks and comments
    /// allowed between tokens.
    Parenthesized,
}

/// ` as name`, with at least one blank on either side of `as`.
pub open spec fn alias_len(t: Seq<char>) -> nat {
    let w = hspace_len(t);
    if w == 0 || !starts_with(t.skip(w as int), "as"@) {
        0
    } else {
        let w2 = hspace_len(t.skip((w + 2) as int));
        if w2 == 0 {
            0
        } else {
            let n = ident_len(t.skip((w + 2 + w2) as int));
            if n == 0 {
                0
            } else {
                w + 2 + w2 + n
            }
        }
    }
}

/// ` as name` inside parentheses, where line breaks count as blanks.
pub open spec fn paren_alias_len(t: Seq<char>) -> nat {
    let w = multispace_len(t);
    if w == 0 || !starts_with(t.skip(w as int), "as"@) {
        0
    } else {
        let w2 = multispace_len(t.skip((w + 2) as int));
        if w2 == 0 {
            0
        } else {
            let n = ident_len(t.skip((w + 2 + w2) as int));
            if n == 0 {
                0
            } else {
                w + 2 + w2 + n
            }
        }
    }
}

/// The imported name that starts an item.
pub open spec fn item_name_len(form: ListForm, t: Seq<char>) -> nat {
    match form {
        ListForm::Modules => module_len(t),
        _ => ident_len(t),
    }
}

/// An imported name with its optional alias.
pub open spec fn item_len(form: ListForm, t: Seq<char>) -> nat {
    let m = item_name_len(form, t);
    if m == 0 {
        0
    } else {
        m + match form {
            ListForm::Parenthesized => paren_alias_len(t.skip(m as int)),
            _ => alias_len(t.skip(m as int)),
        }
    }
}

/// What may stand between the tokens of a list.
pub open spec fn gap_len(form: ListForm, t: Seq<char>) -> nat {
    match form {
        ListForm::Parenthesized => filler_len(t),
        _ => hspace_len(t),
    }
}

/// A comma with its surrounding gaps.
pub open spec fn separator_len(form: ListForm, t: Seq<char>) -> nat {
    let a = gap_len(form, t);
    if a < t.len() && t[a as int] == ',' {
        a + 1 + gap_len(form, t.skip((a + 1) as int))
    } else {
        0
    }
}

/// A non-empty comma-separated list of items: its length and the names.
#[verifier::opaque]
pub open spec fn items(form: ListForm, t: Seq<char>) -> Option<(nat, Seq<Seq<char>>)>
    decreases t.len(), 1nat,
{
    let e = item_len(form, t);
    if e == 0 {
        None
    } else {
        proof {
            lemma_item_bound(form, t);
        }
        let more = more_items(form, t.skip(e as int));
        Some((e + more.0, seq![t.subrange(0, item_name_len(form, t) as int)] + more.1))
    }
}

/// What follows an item: a separator and further items, or nothing.
#[verifier::opaque]
pub open spec fn more_items(form: ListForm, t: Seq<char>) -> (nat, Seq<Seq<char>>)
    decreases t.len(), 0nat,
{
    let o = separator_len(form, t);
    if o == 0 {
        (0, seq![])
    } else {
        proof {
            lemma_separator_bound(form, t);
        }
        match items(form, t.skip(o as int)) {
            Some((n, names)) => (o + n, names),
            None => (0, seq![]),
        }
    }
}

/// The fully qualified name of `name` imported from `base`.
pub open spec fn canonical_name(base: Seq<char>, name: Seq<char>) -> Seq<char> {
    if base.len() > 0 && base.last() == '.' {
        base + name
    } else {
        base + seq!['.'] + name
    }
}

/// `import` followed by a list of modules.
pub open spec fn simple_import(t: Seq<char>) -> Option<(nat, Seq<Seq<char>>)> {
    if !starts_with(t, "import"@) {
        None
    } else {
        let a = 6 + hspace_len(t.skip(6));
        if a == 6 {
            None
        } else {
            match items(ListForm::Modules, t.skip(a as int)) {
                Some((n, names)) => Some((a + n, names)),
                None => None,
            }
        }
    }
}

/// `from <relative module> import `: where the module starts and ends, and
/// where the imported part starts.
pub open spec fn from_head(t: Seq<char>) -> Option<(nat, nat, nat)> {
    if !starts_with(t, "from"@) {
        None
    } else {
        let a = 4 + hspace_len(t.skip(4));
        if a == 4 {
            None
        } else {
            let b = a + relative_module_len(t.skip(a as int));
            if b == a {
                None
            } else {
                let c = b + hspace_len(t.skip(b as int));
                if c == b || !starts_with(t.skip(c as int), "import"@) {
                    None
                } else {
                    let d = c + 6 + hspace_len(t.skip((c + 6) as int));
                    if d == c + 6 {
                        None
                    } else {
                        Some((a, b, d))
                    }
                }
            }
        }
    }
}

pub open spec fn qualified(base: Seq<char>, names: Seq<Seq<char>>) -> Seq<Seq<char>> {
    names.map_values(|n: Seq<char>| canonical_name(base, n))
}

/// `from m import a, b`.
pub open spec fn from_import(t: Seq<char>) -> Option<(nat, Seq<Seq<char>>)> {
    match from_head(t) {
        Some((a, b, d)) => match items(ListForm::Names, t.skip(d as int)) {
            Some((n, names)) => Some((d + n, qualified(t.subrange(a as int, b as int), names))),
            None => None,
        },
        None => None,
    }
}

/// `from m import ( a, b, )`.
pub open spec fn paren_from_import(t: Seq<char>) -> Option<(nat, Seq<Seq<char>>)> {
    match from_head(t) {
        Some((a, b, d)) => {
            let e = d + 1 + filler_len(t.skip((d + 1) as int));
            if d < t.len() && t[d as int] == '(' {
                match items(ListForm::Parenthesized, t.skip(e as int)) {
                    Some((n, names)) => {
                        let f = e + n + filler_len(t.skip((e + n) as int));
                        let g: nat = if f < t.len() && t[f as int] == ',' {
                            f + 1
                        } else {
                            f
                        };
                        let h = g + filler_len(t.skip(g as int));
                        if h < t.len() && t[h as int] == ')' {
                            Some((h + 1, qualified(t.subrange(a as int, b as int), names)))
                        } else {
                            None
                        }
                    },
                    None => None,
                }
            } else {
                None
            }
        },
        None => None,
    }
}

/// `from m import *`.
pub open spec fn wildcard_import(t: Seq<char>) -> Option<(nat, Seq<Seq<char>>)> {
    match from_head(t) {
        Some((a, b, d)) => if d < t.len() && t[d as int] == '*' {
            Some((d + 1, seq![canonical_name(t.subrange(a as int, b as int), seq!['*'])]))
        } else {
            None
        },
        None => None,
    }
}

/// The first statement form that matches.
pub open spec fn statement(t: Seq<char>) -> Option<(nat, Seq<Seq<char>>)> {
    if simple_import(t) is Some {
        simple_import(t)
    } else if from_import(t) is Some {
        from_import(t)
    } else if paren_from_import(t) is Some {
        paren_from_import(t)
    } else {
        wildcard_import(t)
    }
}

/// The records of one statement of length `n` at the start of `t`.
pub open spec fn statement_records(t: Seq<char>, n: nat, names: Seq<Seq<char>>, tc: bool) -> Seq<
    Rec,
> {
    names.map_values(|x: Seq<char>| Rec { name: x, start: 0, contents: t.subrange(0, n as int), tc })
}

/// Statements separated by `;`, with an optional trailing `;`.
#[verifier::opaque]
pub open spec fn statement_list(t: Seq<char>, tc: bool) -> Option<(nat, Seq<Rec>)>
    decreases t.len(), 1nat,
{
    match statement(t) {
        None => None,
        Some((n, names)) => {
            proof {
                lemma_statement_bound(t);
            }
            let more = more_statements(t.skip(n as int), tc);
            Some((n + more.0, statement_records(t, n, names, tc) + shift(more.1, n)))
        },
    }
}

/// What follows a statement of a list: `;` and further statements, or
/// the blanks and the `;` that may end the list.
#[verifier::opaque]
pub open spec fn more_statements(t: Seq<char>, tc: bool) -> (nat, Seq<Rec>)
    decreases t.len(), 0nat,
{
    let a = hspace_len(t);
    if a < t.len() && t[a as int] == ';' {
        let o = a + 1 + hspace_len(t.skip((a + 1) as int));
        proof {
            lemma_hspace_bound(t.skip((a + 1) as int));
        }
        match statement_list(t.skip(o as int), tc) {
            Some((m, more)) => (o + m, shift(more, o)),
            None => (a + 1, seq![]),
        }
    } else {
        (a, seq![])
    }
}

pub proof fn lemma_item_bound(form: ListForm, t: Seq<char>)
    ensures
        item_len(form, t) <= t.len(),
        item_name_len(form, t) <= item_len(form, t),
{
    reveal_strlit("as");
    lemma_module_bound(t);
    lemma_ident_bound(t);
    let m = item_name_len(form, t);
    if m > 0 {
        let u = t.skip(m as int);
        let w = hspace_len(u);
        lemma_hspace_bound(u);
        lemma_multispace_bound(u);
        if w + 2 <= u.len() {
            lemma_hspace_bound(u.skip((w + 2) as int));
            lemma_ident_bound(u.skip((w + 2 + hspace_len(u.skip((w + 2) as int))) as int));
        }
        let x = multispace_len(u);
        if x + 2 <= u.len() {
            lemma_multispace_bound(u.skip((x + 2) as int));
            lemma_ident_bound(u.skip((x + 2 + multispace_len(u.skip((x + 2) as int))) as int));
        }
    }
}

pub proof fn lemma_separator_bound(form: ListForm, t: Seq<char>)
    ensures
        separator_len(form, t) <= t.len(),
{
    lemma_hspace_bound(t);
    lemma_filler_bound(t);
    let a = gap_len(form, t);
    if a < t.len() {
        lemma_hspace_bound(t.skip((a + 1) as int));
        lemma_filler_bound(t.skip((a + 1) as int));
    }
}

pub proof fn lemma_items_bound(form: ListForm, t: Seq<char>)
    ensures
        items(form, t) matches Some((n, _)) ==> 0 < n <= t.len(),
        more_items(form, t).0 <= t.len(),
    decreases t.len(),
{
    reveal_with_fuel(items, 1);
    reveal_with_fuel(more_items, 1);
    lemma_item_bound(form, t);
    lemma_separator_bound(form, t);
    let e = item_len(form, t);
    if e > 0 {
        lemma_items_bound(form, t.skip(e as int));
    }
    let o = separator_len(form, t);
    if o > 0 {
        lemma_items_bound(form, t.skip(o as int));
    }
}

pub proof fn lemma_from_head_bound(t: Seq<char>)
    ensures
        from_head(t) matches Some((a, b, d)) ==> 4 < a < b < d <= t.len(),
{
    reveal_strlit("from");
    reveal_strlit("import");
    lemma_hspace_bound(t.skip(4));
    let a = 4 + hspace_len(t.skip(4));
    if a <= t.len() {
        lemma_relative_module_bound(t.skip(a as int));
        let b = a + relative_module_len(t.skip(a as int));
        lemma_hspace_bound(t.skip(b as int));
        let c = b + hspace_len(t.skip(b as int));
        if c + 6 <= t.len() {
            lemma_hspace_bound(t.skip((c + 6) as int));
        }
    }
}

pub proof fn lemma_paren_from_import_bound(t: Seq<char>)
    ensures
        paren_from_import(t) matches Some((n, _)) ==> 0 < n <= t.len(),
{
    lemma_from_head_bound(t);
    if let Some((a, b, d)) = from_head(t) {
        if d < t.len() {
            lemma_filler_bound(t.skip((d + 1) as int));
            let e = d + 1 + filler_len(t.skip((d + 1) as int));
            lemma_items_bound(ListForm::Parenthesized, t.skip(e as int));
            if let Some((n, _)) = items(ListForm::Parenthesized, t.skip(e as int)) {
                lemma_filler_bound(t.skip((e + n) as int));
                let f = e + n + filler_len(t.skip((e + n) as int));
                lemma_filler_bound(t.skip(f as int));
                lemma_filler_bound(t.skip((f + 1) as int));
            }
        }
    }
}

pub proof fn lemma_statement_bound(t: Seq<char>)
    ensures
        statement(t) matches Some((n, _)) ==> 0 < n <= t.len(),
{
    reveal_strlit("import");
    if t.len() >= 6 {
        lemma_hspace_bound(t.skip(6));
        let a = 6 + hspace_len(t.skip(6));
        lemma_items_bound(ListForm::Modules, t.skip(a as int));
    }
    lemma_from_head_bound(t);
    if let Some((a, b, d)) = from_head(t) {
        lemma_items_bound(ListForm::Names, t.skip(d as int));
    }
    lemma_paren_from_import_bound(t);
}

pub proof fn lemma_statement_list_bound(t: Seq<char>, tc: bool)
    ensures
        statement_list(t, tc) matches Some((n, _)) ==> 0 < n <= t.len(),
        more_statements(t, tc).0 <= t.len(),
    decreases t.len(),
{
    reveal_with_fuel(statement_list, 1);
    reveal_with_fuel(more_statements, 1);
    lemma_statement_bound(t);
    lemma_hspace_bound(t);
    if let Some((n, _)) = statement(t) {
        lemma_statement_list_bound(t.skip(n as int), tc);
    }
    let a = hspace_len(t);
    if a < t.len() {
        lemma_hspace_bound(t.skip((a + 1) as int));
        let o = a + 1 + hspace_len(t.skip((a + 1) as int));
        lemma_statement_list_bound(t.skip(o as int), tc);
    }
}


pub proof fn lemma_items_step(form: ListForm, s: Seq<char>, i: int, lim: int)
    requires
        0 <= i <= lim <= s.len(),
    ensures
        ({
            let t = window(s, i, lim);
            let e = item_len(form, t);
            let more = more_items(form, window(s, i + e, lim));
            items(form, t) == if e == 0 {
                None
            } else {
                Some((e + more.0, seq![s.subrange(i, i + item_name_len(form, t))] + more.1))
            }
        }),
{
    reveal_with_fuel(items, 1);
    reveal_with_fuel(more_items, 1);
    let t = window(s, i, lim);
    lemma_item_bound(form, t);
    let e = item_len(form, t);
    assert(t.skip(e as int) == window(s, i + e, lim));
    assert(t.subrange(0, item_name_len(form, t) as int) =~= s.subrange(
        i,
        i + item_name_len(form, t),
    ));
}

pub proof fn lemma_more_items_step(form: ListForm, s: Seq<char>, i: int, lim: int)
    requires
        0 <= i <= lim <= s.len(),
    ensures
        ({
            let t = window(s, i, lim);
            let o = separator_len(form, t);
            more_items(form, t) == if o == 0 {
                (0nat, Seq::<Seq<char>>::empty())
            } else {
                match items(form, window(s, i + o, lim)) {
                    Some((n, names)) => (o + n, names),
                    None => (0nat, Seq::<Seq<char>>::empty()),
                }
            }
        }),
{
    reveal_with_fuel(more_items, 1);
    reveal_with_fuel(items, 1);
    lemma_separator_bound(form, window(s, i, lim));
}

pub proof fn lemma_statement_list_step(s: Seq<char>, i: int, lim: int, tc: bool)
    requires
        0 <= i <= lim <= s.len(),
    ensures
        ({
            let t = window(s, i, lim);
            statement_list(t, tc) == match statement(t) {
                None => None,
                Some((n, names)) => {
                    let more = more_statements(window(s, i + n, lim), tc);
                    Some((n + more.0, statement_records(t, n, names, tc) + shift(more.1, n)))
                },
            }
        }),
{
    reveal_with_fuel(statement_list, 1);
    reveal_with_fuel(more_statements, 1);
    lemma_statement_bound(window(s, i, lim));
}

pub proof fn lemma_more_statements_step(s: Seq<char>, i: int, lim: int, tc: bool)
    requires
        0 <= i <= lim <= s.len(),
    ensures
        ({
            let t = window(s, i, lim);
            let a = hspace_len(t);
            let o = a + 1 + hspace_len(window(s, i + a + 1, lim));
            more_statements(t, tc) == if a < t.len() && t[a as int] == ';' {
                match statement_list(window(s, i + o, lim), tc) {
                    Some((m, more)) => (o + m, shift(more, o)),
                    None => (a + 1, Seq::<Rec>::empty()),
                }
            } else {
                (a, Seq::<Rec>::empty())
            }
        }),
{
    reveal_with_fuel(more_statements, 1);
    reveal_with_fuel(statement_list, 1);
    let t = window(s, i, lim);
    lemma_hspace_bound(t);
    let a = hspace_len(t);
    if a < t.len() {
        lemma_hspace_bound(t.skip((a + 1) as int));
    }
}

// Executable statement parsers over `v[i..lim]`.

pub open spec fn views(names: Seq<Vec<char>>) -> Seq<Seq<char>> {
    names.map_values(|x: Vec<char>| x@)
}

/// `r` is what a parser at `i` returns for the spec result `m`.
pub open spec fn parsed_as(
    r: Option<(usize, Vec<Vec<char>>)>,
    i: usize,
    m: Option<(nat, Seq<Seq<char>>)>,
) -> bool {
    match m {
        Some((n, names)) => r matches Some((e, found)) && e == i + n && views(found@) == names,
        None => r is None,
    }
}

/// A copy of `v[a..b]`.
pub fn copy_chars(v: &Vec<char>, a: usize, b: usize) -> (r: Vec<char>)
    requires
        a <= b <= v@.len(),
    ensures
        r@ == v@.subrange(a as int, b as int),
{
    let mut r: Vec<char> = Vec::new();
    let mut k = a;
    while k < b
        invariant
            a <= k <= b <= v@.len(),
            r@ == v@.subrange(a as int, k as int),
        decreases b - k,
    {
        r.push(v[k]);
        k = k + 1;
        assert(r@ =~= v@.subrange(a as int, k as int));
    }
    r
}

/// Appends the characters of `src` to `dst`.
pub fn append_chars(dst: &mut Vec<char>, src: &Vec<char>)
    ensures
        final(dst)@ == old(dst)@ + src@,
{
    let ghost start = dst@;
    let mut k: usize = 0;
    while k < src.len()
        invariant
            k <= src@.len(),
            dst@ == start + src@.subrange(0, k as int),
        decreases src@.len() - k,
    {
        dst.push(src[k]);
        k = k + 1;
        assert(dst@ =~= start + src@.subrange(0, k as int));
    }
    assert(src@.subrange(0, src@.len() as int) =~= src@);
}

/// ` as name` after an imported name.
pub fn parse_alias(v: &Vec<char>, i: usize, lim: usize) -> (r: usize)
    requires
        i <= lim <= v@.len(),
    ensures
        r == i + alias_len(window(v@, i as int, lim as int)),
        r <= lim,
{
    proof {
        reveal_strlit("as");
    }
    let w = parse_space0(v, i, lim);
    if w == i || !tag(v, w, lim, "as") {
        return i;
    }
    let x = parse_space0(v, w + 2, lim);
    if x == w + 2 {
        return i;
    }
    let n = parse_identifier(v, x, lim);
    if n == x {
        return i;
    }
    n
}

/// ` as name` inside parentheses.
pub fn parse_paren_alias(v: &Vec<char>, i: usize, lim: usize) -> (r: usize)
    requires
        i <= lim <= v@.len(),
    ensures
        r == i + paren_alias_len(window(v@, i as int, lim as int)),
        r <= lim,
{
    proof {
        reveal_strlit("as");
    }
    let w = parse_multispace0(v, i, lim);
    if w == i || !tag(v, w, lim, "as") {
        return i;
    }
    let x = parse_multispace0(v, w + 2, lim);
    if x == w + 2 {
        return i;
    }
    let n = parse_identifier(v, x, lim);
    if n == x {
        return i;
    }
    n
}

/// An item of a list: where its name ends and where the item ends.
pub fn parse_item(v: &Vec<char>, i: usize, lim: usize, form: ListForm) -> (r: (usize, usize))
    requires
        i <= lim <= v@.len(),
    ensures
        r.0 == i + item_name_len(form, window(v@, i as int, lim as int)),
        r.1 == i + item_len(form, window(v@, i as int, lim as int)),
        r.0 <= r.1 <= lim,
{
    let m = match form {
        ListForm::Modules => parse_module(v, i, lim),
        _ => parse_identifier(v, i, lim),
    };
    if m == i {
        return (i, i);
    }
    let e = match form {
        ListForm::Parenthesized => parse_paren_alias(v, m, lim),
        _ => parse_alias(v, m, lim),
    };
    (m, e)
}

pub fn parse_gap(v: &Vec<char>, i: usize, lim: usize, form: ListForm) -> (r: usize)
    requires
        i <= lim <= v@.len(),
    ensures
        r == i + gap_len(form, window(v@, i as int, lim as int)),
        r <= lim,
{
    match form {
        ListForm::Parenthesized => parse_multispace0_or_comment(v, i, lim),
        _ => parse_space0(v, i, lim),
    }
}

pub fn parse_separator(v: &Vec<char>, i: usize, lim: usize, form: ListForm) -> (r: usize)
    requires
        i <= lim <= v@.len(),
    ensures
        r == i + separator_len(form, window(v@, i as int, lim as int)),
        r <= lim,
{
    let a = parse_gap(v, i, lim, form);
    if a < lim && v[a] == ',' {
        parse_gap(v, a + 1, lim, form)
    } else {
        i
    }
}

/// A comma-separated list of items; the names, without aliases.
pub fn parse_items(v: &Vec<char>, i: usize, lim: usize, form: ListForm) -> (r: Option<
    (usize, Vec<Vec<char>>),
>)
    requires
        i <= lim <= v@.len(),
    ensures
        parsed_as(r, i, items(form, window(v@, i as int, lim as int))),
        r matches Some((e, _)) ==> i < e <= lim,
{
    let (name_end, e) = parse_item(v, i, lim, form);
    proof {
        lemma_items_step(form, v@, i as int, lim as int);
    }
    if e == i {
        return None;
    }
    let mut names: Vec<Vec<char>> = Vec::new();
    names.push(copy_chars(v, i, name_end));
    assert(views(names@) =~= seq![v@.subrange(i as int, name_end as int)]);
    let mut end = e;
    loop
        invariant
            i < end <= lim <= v@.len(),
            items(form, window(v@, i as int, lim as int)) == Some(
                (
                    (end - i) as nat + more_items(form, window(v@, end as int, lim as int)).0,
                    views(names@) + more_items(form, window(v@, end as int, lim as int)).1,
                ),
            ),
        decreases lim - end,
    {
        proof {
            lemma_more_items_step(form, v@, end as int, lim as int);
        }
        let o = parse_separator(v, end, lim, form);
        if o == end {
            assert(views(names@) + seq![] =~= views(names@));
            return Some((end, names));
        }
        let (ne, e2) = parse_item(v, o, lim, form);
        proof {
            lemma_items_step(form, v@, o as int, lim as int);
        }
        if e2 == o {
            assert(views(names@) + seq![] =~= views(names@));
            return Some((end, names));
        }
        let ghost before = views(names@);
        names.push(copy_chars(v, o, ne));
        let ghost name = v@.subrange(o as int, ne as int);
        let ghost rest = more_items(form, window(v@, e2 as int, lim as int)).1;
        assert(views(names@) =~= before.push(name));
        assert(before + (seq![name] + rest) =~= before.push(name) + rest);
        end = e2;
    }
}

/// `base` joined to `name` as an absolute or relative dotted name.
pub fn qualify(base: &Vec<char>, name: &Vec<char>) -> (r: Vec<char>)
    ensures
        r@ == canonical_name(base@, name@),
{
    let mut r: Vec<char> = Vec::new();
    append_chars(&mut r, base);
    let n = base.len();
    if !(n > 0 && base[n - 1] == '.') {
        r.push('.');
    }
    append_chars(&mut r, name);
    assert(r@ =~= canonical_name(base@, name@));
    r
}

pub fn qualify_all(base: &Vec<char>, names: Vec<Vec<char>>) -> (r: Vec<Vec<char>>)
    ensures
        views(r@) == qualified(base@, views(names@)),
{
    let mut r: Vec<Vec<char>> = Vec::new();
    let mut k: usize = 0;
    while k < names.len()
        invariant
            k <= names@.len(),
            views(r@) == qualified(base@, views(names@)).subrange(0, k as int),
        decreases names@.len() - k,
    {
        let q = qualify(base, &names[k]);
        let ghost before = views(r@);
        r.push(q);
        assert(views(r@) =~= before.push(q@));
        assert(views(r@) =~= qualified(base@, views(names@)).subrange(0, k + 1));
        k = k + 1;
    }
    assert(qualified(base@, views(names@)).subrange(0, names@.len() as int) =~= qualified(
        base@,
        views(names@),
    ));
    r
}

pub fn parse_import_statement(v: &Vec<char>, i: usize, lim: usize) -> (r: Option<
    (usize, Vec<Vec<char>>),
>)
    requires
        i <= lim <= v@.len(),
    ensures
        parsed_as(r, i, simple_import(window(v@, i as int, lim as int))),
{
    proof {
        reveal_strlit("import");
    }
    if !tag(v, i, lim, "import") {
        return None;
    }
    let a = parse_space0(v, i + 6, lim);
    if a == i + 6 {
        return None;
    }
    parse_items(v, a, lim, ListForm::Modules)
}

/// `from <module> import `: the module's bounds and where the rest starts.
pub fn parse_from_head(v: &Vec<char>, i: usize, lim: usize) -> (r: Option<(usize, usize, usize)>)
    requires
        i <= lim <= v@.len(),
    ensures
        match from_head(window(v@, i as int, lim as int)) {
            Some((a, b, d)) => r matches Some((x, y, z)) && x == i + a && y == i + b && z == i + d,
            None => r is None,
        },
        r matches Some((a, b, d)) ==> i < a < b < d <= lim,
{
    proof {
        reveal_strlit("import");
        reveal_strlit("from");
    }
    if !tag(v, i, lim, "from") {
        return None;
    }
    let a = parse_space0(v, i + 4, lim);
    if a == i + 4 {
        return None;
    }
    let b = parse_relative_module(v, a, lim);
    if b == a {
        return None;
    }
    let c = parse_space0(v, b, lim);
    if c == b || !tag(v, c, lim, "import") {
        return None;
    }
    let d = parse_space0(v, c + 6, lim);
    if d == c + 6 {
        return None;
    }
    Some((a, b, d))
}

pub fn parse_from_import_statement(v: &Vec<char>, i: usize, lim: usize) -> (r: Option<
    (usize, Vec<Vec<char>>),
>)
    requires
        i <= lim <= v@.len(),
    ensures
        parsed_as(r, i, from_import(window(v@, i as int, lim as int))),
{
    let (a, b, d) = match parse_from_head(v, i, lim) {
        Some(h) => h,
        None => return None,
    };
    let ghost t = window(v@, i as int, lim as int);
    assert(from_head(t) == Some(((a - i) as nat, (b - i) as nat, (d - i) as nat)));
    assert(t.skip(d - i) == window(v@, d as int, lim as int));
    match parse_items(v, d, lim, ListForm::Names) {
        Some((e, names)) => {
            let base = copy_chars(v, a, b);
            assert(base@ == window(v@, i as int, lim as int).subrange(a - i, b - i));
            Some((e, qualify_all(&base, names)))
        },
        None => None,
    }
}

pub fn parse_multiline_from_import_statement(v: &Vec<char>, i: usize, lim: usize) -> (r: Option<
    (usize, Vec<Vec<char>>),
>)
    requires
        i <= lim <= v@.len(),
    ensures
        parsed_as(r, i, paren_from_import(window(v@, i as int, lim as int))),
{
    let (a, b, d) = match parse_from_head(v, i, lim) {
        Some(h) => h,
        None => return None,
    };
    if !(d < lim && v[d] == '(') {
        return None;
    }
    let e = parse_multispace0_or_comment(v, d + 1, lim);
    let (n, names) = match parse_items(v, e, lim, ListForm::Parenthesized) {
        Some(x) => x,
        None => return None,
    };
    let f = parse_multispace0_or_comment(v, n, lim);
    let g = if f < lim && v[f] == ',' {
        f + 1
    } else {
        f
    };
    let h = parse_multispace0_or_comment(v, g, lim);
    if !(h < lim && v[h] == ')') {
        return None;
    }
    let base = copy_chars(v, a, b);
    assert(base@ == window(v@, i as int, lim as int).subrange(a - i, b - i));
    Some((h + 1, qualify_all(&base, names)))
}

pub fn parse_wildcard_from_import_statement(v: &Vec<char>, i: usize, lim: usize) -> (r: Option<
    (usize, Vec<Vec<char>>),
>)
    requires
        i <= lim <= v@.len(),
    ensures
        parsed_as(r, i, wildcard_import(window(v@, i as int, lim as int))),
{
    let (a, b, d) = match parse_from_head(v, i, lim) {
        Some(h) => h,
        None => return None,
    };
    let ghost t = window(v@, i as int, lim as int);
    assert(from_head(t) == Some(((a - i) as nat, (b - i) as nat, (d - i) as nat)));
    if !(d < lim && v[d] == '*') {
        assert(d < lim ==> t[d - i] == v@[d as int]);
        return None;
    }
    assert(t[d - i] == '*');
    let base = copy_chars(v, a, b);
    assert(base@ == window(v@, i as int, lim as int).subrange(a - i, b - i));
    let mut star: Vec<char> = Vec::new();
    star.push('*');
    assert(star@ =~= seq!['*']);
    let mut names: Vec<Vec<char>> = Vec::new();
    names.push(qualify(&base, &star));
    assert(views(names@) =~= seq![canonical_name(base@, seq!['*'])]);
    Some((d + 1, names))
}

/// The first of the four statement forms that matches at `i`.
pub fn parse_statement(v: &Vec<char>, i: usize, lim: usize) -> (r: Option<
    (usize, Vec<Vec<char>>),
>)
    requires
        i <= lim <= v@.len(),
    ensures
        parsed_as(r, i, statement(window(v@, i as int, lim as int))),
        r matches Some((e, _)) ==> i < e <= lim,
{
    proof {
        lemma_statement_bound(window(v@, i as int, lim as int));
    }
    let r = parse_import_statement(v, i, lim);
    if r.is_some() {
        return r;
    }
    let r = parse_from_import_statement(v, i, lim);
    if r.is_some() {
        return r;
    }
    let r = parse_multiline_from_import_statement(v, i, lim);
    if r.is_some() {
        return r;
    }
    parse_wildcard_from_import_statement(v, i, lim)
}

/// Appends an import for each name of the statement `v[start..end]`.
pub fn push_statement_records(
    v: &Vec<char>,
    lines: &Vec<u32>,
    start: usize,
    end: usize,
    lim: usize,
    names: &Vec<Vec<char>>,
    tc: bool,
    out: &mut Vec<Import>,
)
    requires
        start < end <= lim <= v@.len(),
        line_table(lines@, v@),
    ensures
        appended(
            final(out)@,
            old(out)@,
            v@,
            start as int,
            statement_records(
                window(v@, start as int, lim as int),
                (end - start) as nat,
                views(names@),
                tc,
            ),
        ),
{
    let ghost recs = statement_records(
        window(v@, start as int, lim as int),
        (end - start) as nat,
        views(names@),
        tc,
    );
    let contents = string_from_chars(&copy_chars(v, start, end));
    assert(contents@ == window(v@, start as int, lim as int).subrange(0, (end - start) as int));
    let line = lines[start];
    let mut k: usize = 0;
    while k < names.len()
        invariant
            k <= names@.len(),
            start < end <= lim <= v@.len(),
            line_table(lines@, v@),
            line == lines@[start as int],
            contents@ == window(v@, start as int, lim as int).subrange(0, (end - start) as int),
            recs == statement_records(
                window(v@, start as int, lim as int),
                (end - start) as nat,
                views(names@),
                tc,
            ),
            appended(out@, old(out)@, v@, start as int, recs.subrange(0, k as int)),
        decreases names@.len() - k,
    {
        let imp = Import::new(string_from_chars(&names[k]), line, contents.clone(), tc);
        let ghost before = out@;
        out.push(imp);
        proof {
            let sub = recs.subrange(0, k + 1);
            assert forall|j: int| 0 <= j < sub.len() implies #[trigger] describes(
                out@[old(out)@.len() + j],
                v@,
                start as int,
                sub[j],
            ) by {
                if j < k {
                    assert(describes(before[old(out)@.len() + j], v@, start as int, recs.subrange(0, k as int)[j]));
                }
            }
        }
        k = k + 1;
    }
    assert(recs.subrange(0, names@.len() as int) =~= recs);
}

/// `;`-separated statements at `i`; appends their imports to `out`.
pub fn parse_import_statement_list(
    v: &Vec<char>,
    lines: &Vec<u32>,
    i: usize,
    lim: usize,
    tc: bool,
    out: &mut Vec<Import>,
) -> (r: Option<usize>)
    requires
        i <= lim <= v@.len(),
        line_table(lines@, v@),
    ensures
        match statement_list(window(v@, i as int, lim as int), tc) {
            Some((n, recs)) => r == Some((i + n) as usize) && appended(
                final(out)@,
                old(out)@,
                v@,
                i as int,
                recs,
            ),
            None => r is None && final(out)@ == old(out)@,
        },
{
    proof {
        lemma_statement_list_step(v@, i as int, lim as int, tc);
    }
    let (n0, names0) = match parse_statement(v, i, lim) {
        Some(x) => x,
        None => return None,
    };
    push_statement_records(v, lines, i, n0, lim, &names0, tc, out);
    let ghost first = statement_records(
        window(v@, i as int, lim as int),
        (n0 - i) as nat,
        views(names0@),
        tc,
    );
    let ghost mut done = first;
    let mut end = n0;
    loop
        invariant
            i < end <= lim <= v@.len(),
            line_table(lines@, v@),
            appended(out@, old(out)@, v@, i as int, done),
            statement_list(window(v@, i as int, lim as int), tc) == Some(
                (
                    (end - i) as nat + more_statements(window(v@, end as int, lim as int), tc).0,
                    done + shift(more_statements(window(v@, end as int, lim as int), tc).1, (end - i) as nat),
                ),
            ),
        decreases lim - end,
    {
        proof {
            lemma_more_statements_step(v@, end as int, lim as int, tc);
        }
        let a = parse_space0(v, end, lim);
        assert(a < lim ==> window(v@, end as int, lim as int)[a - end] == v@[a as int]);
        if !(a < lim && v[a] == ';') {
            proof {
                assert(done + shift(seq![], (end - i) as nat) =~= done);
            }
            return Some(a);
        }
        let o = parse_space0(v, a + 1, lim);
        proof {
            lemma_statement_list_step(v@, o as int, lim as int, tc);
        }
        let (n2, names2) = match parse_statement(v, o, lim) {
            Some(x) => x,
            None => {
                proof {
                    assert(done + shift(seq![], (end - i) as nat) =~= done);
                }
                return Some(a + 1);
            },
        };
        let ghost mid = out@;
        push_statement_records(v, lines, o, n2, lim, &names2, tc, out);
        proof {
            let r2 = statement_records(window(v@, o as int, lim as int), (n2 - o) as nat, views(names2@), tc);
            let m2 = more_statements(window(v@, n2 as int, lim as int), tc).1;
            lemma_appended_concat(out@, mid, old(out)@, v@, i as int, done, (o - i) as nat, r2);
            lemma_shift_shift(r2 + shift(m2, (n2 - o) as nat), (o - end) as nat, (end - i) as nat);
            lemma_shift_concat(r2, shift(m2, (n2 - o) as nat), (o - i) as nat);
            lemma_shift_shift(m2, (n2 - o) as nat, (o - i) as nat);
            assert(done + (shift(r2, (o - i) as nat) + shift(m2, (n2 - i) as nat)) =~= (done + shift(r2, (o - i) as nat)) + shift(m2, (n2 - i) as nat));
            done = done + shift(r2, (o - i) as nat);
        }
        end = n2;
    }
}

} // verus!
