//! Text appended after a line break, when it cannot continue anything that
//! came before, leaves every recogniser's result on the earlier text as it
//! was.
use vstd::prelude::*;
use crate::lexer::{
    starts_with, is_space, is_multispace, is_ident_char, spaces_len, hspace_len, multispace_len,
    ident_len, dots_len, line_ending_len, rest_of_line_len, comment_len, filler_len,
    comment_filler_len, module_rest_len, module_len, relative_module_len, find, triple_quoted_len,
    triple_double, triple_single, lemma_spaces_bound, lemma_hspace_bound, lemma_multispace_bound,
    lemma_dots_bound, lemma_comment_bound, lemma_filler_bound, lemma_relative_module_bound,
};
use crate::statements::{
    ListForm, alias_len, paren_alias_len, item_name_len, item_len, gap_len, separator_len, items,
    more_items, simple_import, from_head, from_import, paren_from_import, wildcard_import,
    statement, statement_records, statement_list, more_statements, lemma_item_bound,
    lemma_separator_bound, lemma_items_bound, lemma_from_head_bound, lemma_statement_bound,
    lemma_statement_list_bound,
};
use crate::block::{
    guard_len, blank_lines_len, block_lines_len, indented_block_len, guarded_block_len,
    guarded_block_start, after_guard, guarded_len, step_len, step_records,
    block_records, lemma_guard_bound, lemma_blank_lines_bound, lemma_guarded_bounds,
    lemma_guarded_block_bounds, lemma_step_bounds, lemma_guarded_records_unfold,
    lemma_step_records_unfold, lemma_block_records_unfold,
};
use crate::records::{Rec, shift, line_at, lemma_shift_shift, lemma_shift_concat, lemma_shift_zero};
use crate::laws::{plain_code, law_plain_code_prefix};

verus! {

/// A character that continues nothing: no blank, line break, identifier
/// character, quote, comment sign or punctuation of the grammar.
pub open spec fn inert(c: char) -> bool {
    &&& !is_ident_char(c)
    &&& !is_multispace(c)
    &&& c != '#' && c != '"' && c != '\'' && c != '\\'
    &&& c != ',' && c != ';' && c != ':' && c != '(' && c != ')' && c != '*' && c != '.'
}

/// Text that starts with an inert character and holds no triple quote.
pub open spec fn quiet_tail(q: Seq<char>) -> bool {
    &&& q.len() == 0 || inert(q[0])
    &&& forall|k: int|
        0 <= k <= q.len() ==> !starts_with(#[trigger] q.skip(k as int), triple_double())
            && !starts_with(q.skip(k as int), triple_single())
}

/// Empty, or ending with a line break.
pub open spec fn clean(x: Seq<char>) -> bool {
    x.len() == 0 || x.last() == '\n'
}

proof fn lemma_clean_skip(x: Seq<char>, k: int)
    requires
        clean(x),
        0 <= k <= x.len(),
    ensures
        clean(x.skip(k as int)),
{
    if k < x.len() {
        assert(x.skip(k as int).last() == x.last());
    }
}

broadcast use crate::window::lemma_concat_skip, crate::window::lemma_concat_subrange;

/// A pattern without line breaks whose first character is not inert is
/// found at the start of `x + q` exactly when it is at the start of `x`.
proof fn lemma_starts_with(x: Seq<char>, q: Seq<char>, p: Seq<char>)
    requires
        clean(x),
        quiet_tail(q),
        p.len() > 0,
        !inert(p[0]),
        forall|k: int| 0 <= k < p.len() ==> p[k] != '\n',
    ensures
        starts_with(x + q, p) == starts_with(x, p),
{
    if p.len() > x.len() && starts_with(x + q, p) {
        if x.len() == 0 {
            assert((x + q).subrange(0, p.len() as int)[0] == q[0]);
        } else {
            assert((x + q).subrange(0, p.len() as int)[x.len() - 1] == x.last());
        }
    }
}

proof fn lemma_spaces(x: Seq<char>, q: Seq<char>)
    requires
        clean(x),
        quiet_tail(q),
    ensures
        spaces_len(x + q) == spaces_len(x),
    decreases x.len(),
{
    if x.len() > 0 {
        lemma_clean_skip(x, 1);
        lemma_spaces(x.skip(1), q);
    }
}

proof fn lemma_hspace(x: Seq<char>, q: Seq<char>)
    requires
        clean(x),
        quiet_tail(q),
    ensures
        hspace_len(x + q) == hspace_len(x),
    decreases x.len(),
{
    if x.len() > 0 {
        lemma_clean_skip(x, 1);
        lemma_hspace(x.skip(1), q);
        if x.len() > 1 {
            lemma_clean_skip(x, 2);
            lemma_hspace(x.skip(2), q);
        }
    }
}

proof fn lemma_multispace(x: Seq<char>, q: Seq<char>)
    requires
        clean(x),
        quiet_tail(q),
    ensures
        multispace_len(x + q) == multispace_len(x),
    decreases x.len(),
{
    if x.len() > 0 {
        lemma_clean_skip(x, 1);
        lemma_multispace(x.skip(1), q);
    }
}

proof fn lemma_ident(x: Seq<char>, q: Seq<char>)
    requires
        clean(x),
        quiet_tail(q),
    ensures
        ident_len(x + q) == ident_len(x),
    decreases x.len(),
{
    if x.len() > 0 {
        lemma_clean_skip(x, 1);
        lemma_ident(x.skip(1), q);
    }
}

proof fn lemma_dots(x: Seq<char>, q: Seq<char>)
    requires
        clean(x),
        quiet_tail(q),
    ensures
        dots_len(x + q) == dots_len(x),
    decreases x.len(),
{
    if x.len() > 0 {
        lemma_clean_skip(x, 1);
        lemma_dots(x.skip(1), q);
    }
}

proof fn lemma_line_ending(x: Seq<char>, q: Seq<char>)
    requires
        clean(x),
        quiet_tail(q),
    ensures
        line_ending_len(x + q) == line_ending_len(x),
{
}

proof fn lemma_rest_of_line(x: Seq<char>, q: Seq<char>)
    requires
        x.len() > 0,
        x.last() == '\n',
    ensures
        rest_of_line_len(x + q) == rest_of_line_len(x),
    decreases x.len(),
{
    if x[0] != '\n' {
        assert(x.len() > 1);
        assert(x.skip(1).last() == x.last());
        lemma_rest_of_line(x.skip(1), q);
    }
}

proof fn lemma_comment(x: Seq<char>, q: Seq<char>)
    requires
        clean(x),
        quiet_tail(q),
    ensures
        comment_len(x + q) == comment_len(x),
{
    if x.len() > 0 && x[0] == '#' {
        assert(x.len() > 1);
        assert(x.skip(1).last() == x.last());
        lemma_rest_of_line(x.skip(1), q);
    }
}

proof fn lemma_filler(x: Seq<char>, q: Seq<char>)
    requires
        clean(x),
        quiet_tail(q),
    ensures
        filler_len(x + q) == filler_len(x),
        x.len() > 0 ==> comment_filler_len(x + q) == comment_filler_len(x),
    decreases x.len(),
{
    if x.len() > 0 {
        lemma_clean_skip(x, 1);
        lemma_filler(x.skip(1), q);
    }
}

proof fn lemma_module(x: Seq<char>, q: Seq<char>)
    requires
        clean(x),
        quiet_tail(q),
    ensures
        module_rest_len(x + q) == module_rest_len(x),
        module_len(x + q) == module_len(x),
    decreases x.len(),
{
    if x.len() > 0 {
        lemma_clean_skip(x, 1);
        lemma_module(x.skip(1), q);
        if x.len() > 1 {
            lemma_clean_skip(x, 2);
            lemma_module(x.skip(2), q);
        }
    }
}

proof fn lemma_relative_module(x: Seq<char>, q: Seq<char>)
    requires
        clean(x),
        quiet_tail(q),
    ensures
        relative_module_len(x + q) == relative_module_len(x),
{
    lemma_dots(x, q);
    lemma_dots_bound(x);
    let d = dots_len(x);
    lemma_clean_skip(x, d as int);
    lemma_module(x.skip(d as int), q);
}

proof fn lemma_find(x: Seq<char>, q: Seq<char>, p: Seq<char>)
    requires
        clean(x),
        quiet_tail(q),
        p == triple_double() || p == triple_single(),
    ensures
        find(x + q, p) == find(x, p),
    decreases x.len(),
{
    if x.len() == 0 {
        assert(x + q =~= q);
        lemma_find_none(q, p, 0);
    } else {
        lemma_starts_with(x, q, p);
        lemma_clean_skip(x, 1);
        lemma_find(x.skip(1), q, p);
    }
}

proof fn lemma_find_none(q: Seq<char>, p: Seq<char>, k: int)
    requires
        quiet_tail(q),
        p == triple_double() || p == triple_single(),
        0 <= k <= q.len(),
    ensures
        find(q.skip(k as int), p) is None,
    decreases q.len() - k,
{
    assert(!starts_with(q.skip(k as int), p));
    if k < q.len() {
        assert(q.skip(k as int).skip(1) =~= q.skip((k + 1) as int));
        lemma_find_none(q, p, k + 1);
    }
}

proof fn lemma_triple_quoted(x: Seq<char>, q: Seq<char>)
    requires
        clean(x),
        quiet_tail(q),
    ensures
        triple_quoted_len(x + q) == triple_quoted_len(x),
{
    lemma_starts_with(x, q, triple_double());
    lemma_starts_with(x, q, triple_single());
    if x.len() >= 3 {
        lemma_clean_skip(x, 3);
        lemma_find(x.skip(3), q, triple_double());
        lemma_find(x.skip(3), q, triple_single());
    }
}


/// The keywords of the grammar are found in `x + q` where they are in `x`.
proof fn lemma_keywords(x: Seq<char>, q: Seq<char>)
    requires
        clean(x),
        quiet_tail(q),
    ensures
        starts_with(x + q, "import"@) == starts_with(x, "import"@),
        starts_with(x + q, "from"@) == starts_with(x, "from"@),
        starts_with(x + q, "as"@) == starts_with(x, "as"@),
        starts_with(x + q, "if"@) == starts_with(x, "if"@),
        starts_with(x + q, "TYPE_CHECKING"@) == starts_with(x, "TYPE_CHECKING"@),
        starts_with(x + q, "typing.TYPE_CHECKING"@) == starts_with(x, "typing.TYPE_CHECKING"@),
{
    reveal_strlit("import");
    reveal_strlit("from");
    reveal_strlit("as");
    reveal_strlit("if");
    reveal_strlit("TYPE_CHECKING");
    reveal_strlit("typing.TYPE_CHECKING");
    assert("import"@ =~= seq!['i', 'm', 'p', 'o', 'r', 't']);
    assert("from"@ =~= seq!['f', 'r', 'o', 'm']);
    assert("as"@ =~= seq!['a', 's']);
    assert("if"@ =~= seq!['i', 'f']);
    assert("TYPE_CHECKING"@ =~= seq![
        'T', 'Y', 'P', 'E', '_', 'C', 'H', 'E', 'C', 'K', 'I', 'N', 'G',
    ]);
    assert("typing.TYPE_CHECKING"@ =~= seq![
        't', 'y', 'p', 'i', 'n', 'g', '.', 'T', 'Y', 'P', 'E', '_', 'C', 'H', 'E', 'C', 'K', 'I',
        'N', 'G',
    ]);
    lemma_starts_with(x, q, "import"@);
    lemma_starts_with(x, q, "from"@);
    lemma_starts_with(x, q, "as"@);
    lemma_starts_with(x, q, "if"@);
    lemma_starts_with(x, q, "TYPE_CHECKING"@);
    lemma_starts_with(x, q, "typing.TYPE_CHECKING"@);
}

proof fn lemma_alias(x: Seq<char>, q: Seq<char>)
    requires
        clean(x),
        quiet_tail(q),
    ensures
        alias_len(x + q) == alias_len(x),
        paren_alias_len(x + q) == paren_alias_len(x),
{
    reveal_strlit("as");
    lemma_hspace(x, q);
    lemma_hspace_bound(x);
    let w = hspace_len(x);
    lemma_clean_skip(x, w as int);
    lemma_keywords(x.skip(w as int), q);
    if starts_with(x.skip(w as int), "as"@) {
        lemma_clean_skip(x, (w + 2) as int);
        lemma_hspace(x.skip((w + 2) as int), q);
        lemma_hspace_bound(x.skip((w + 2) as int));
        let w2 = hspace_len(x.skip((w + 2) as int));
        lemma_clean_skip(x, (w + 2 + w2) as int);
        lemma_ident(x.skip((w + 2 + w2) as int), q);
    }
    lemma_multispace(x, q);
    lemma_multispace_bound(x);
    let m = multispace_len(x);
    lemma_clean_skip(x, m as int);
    lemma_keywords(x.skip(m as int), q);
    if starts_with(x.skip(m as int), "as"@) {
        lemma_clean_skip(x, (m + 2) as int);
        lemma_multispace(x.skip((m + 2) as int), q);
        lemma_multispace_bound(x.skip((m + 2) as int));
        let m2 = multispace_len(x.skip((m + 2) as int));
        lemma_clean_skip(x, (m + 2 + m2) as int);
        lemma_ident(x.skip((m + 2 + m2) as int), q);
    }
}

proof fn lemma_item(form: ListForm, x: Seq<char>, q: Seq<char>)
    requires
        clean(x),
        quiet_tail(q),
    ensures
        item_name_len(form, x + q) == item_name_len(form, x),
        item_len(form, x + q) == item_len(form, x),
        gap_len(form, x + q) == gap_len(form, x),
        separator_len(form, x + q) == separator_len(form, x),
{
    lemma_module(x, q);
    lemma_ident(x, q);
    lemma_item_bound(form, x);
    let m = item_name_len(form, x);
    lemma_clean_skip(x, m as int);
    lemma_alias(x.skip(m as int), q);
    lemma_hspace(x, q);
    lemma_filler(x, q);
    lemma_hspace_bound(x);
    lemma_filler_bound(x);
    let a = gap_len(form, x);
    if a < x.len() {
        lemma_clean_skip(x, (a + 1) as int);
        lemma_hspace(x.skip((a + 1) as int), q);
        lemma_filler(x.skip((a + 1) as int), q);
    } else {
        assert(x.skip(a as int).len() == 0);
    }
}

proof fn lemma_items(form: ListForm, x: Seq<char>, q: Seq<char>)
    requires
        clean(x),
        quiet_tail(q),
    ensures
        items(form, x + q) == items(form, x),
        more_items(form, x + q) == more_items(form, x),
    decreases x.len(),
{
    reveal_with_fuel(items, 1);
    reveal_with_fuel(more_items, 1);
    lemma_item(form, x, q);
    lemma_item_bound(form, x);
    lemma_separator_bound(form, x);
    let e = item_len(form, x);
    if e > 0 {
        lemma_clean_skip(x, e as int);
        lemma_items(form, x.skip(e as int), q);
    }
    let o = separator_len(form, x);
    if o > 0 {
        lemma_clean_skip(x, o as int);
        lemma_items(form, x.skip(o as int), q);
    }
}

proof fn lemma_from_head(x: Seq<char>, q: Seq<char>)
    requires
        clean(x),
        quiet_tail(q),
    ensures
        from_head(x + q) == from_head(x),
{
    reveal_strlit("from");
    reveal_strlit("import");
    lemma_keywords(x, q);
    if starts_with(x, "from"@) {
        lemma_clean_skip(x, 4);
        lemma_hspace(x.skip(4), q);
        lemma_hspace_bound(x.skip(4));
        let a = 4 + hspace_len(x.skip(4));
        lemma_clean_skip(x, a as int);
        lemma_relative_module(x.skip(a as int), q);
        lemma_relative_module_bound(x.skip(a as int));
        let b = a + relative_module_len(x.skip(a as int));
        lemma_clean_skip(x, b as int);
        lemma_hspace(x.skip(b as int), q);
        lemma_hspace_bound(x.skip(b as int));
        let c = b + hspace_len(x.skip(b as int));
        lemma_clean_skip(x, c as int);
        lemma_keywords(x.skip(c as int), q);
        if starts_with(x.skip(c as int), "import"@) {
            lemma_clean_skip(x, (c + 6) as int);
            lemma_hspace(x.skip((c + 6) as int), q);
        }
    }
}

proof fn lemma_simple_import(x: Seq<char>, q: Seq<char>)
    requires
        clean(x),
        quiet_tail(q),
    ensures
        simple_import(x + q) == simple_import(x),
{
    reveal_strlit("import");
    lemma_keywords(x, q);
    if starts_with(x, "import"@) {
        lemma_clean_skip(x, 6);
        lemma_hspace(x.skip(6), q);
        lemma_hspace_bound(x.skip(6));
        let a = 6 + hspace_len(x.skip(6));
        lemma_clean_skip(x, a as int);
        lemma_items(ListForm::Modules, x.skip(a as int), q);
    }
}

proof fn lemma_from_import(x: Seq<char>, q: Seq<char>)
    requires
        clean(x),
        quiet_tail(q),
    ensures
        from_import(x + q) == from_import(x),
        wildcard_import(x + q) == wildcard_import(x),
{
    lemma_from_head(x, q);
    lemma_from_head_bound(x);
    if let Some((a, b, d)) = from_head(x) {
        lemma_clean_skip(x, d as int);
        lemma_items(ListForm::Names, x.skip(d as int), q);
    }
}

proof fn lemma_paren_from_import(x: Seq<char>, q: Seq<char>)
    requires
        clean(x),
        quiet_tail(q),
    ensures
        paren_from_import(x + q) == paren_from_import(x),
{
    lemma_from_head(x, q);
    lemma_from_head_bound(x);
    if let Some((a, b, d)) = from_head(x) {
        if d < x.len() {
            lemma_clean_skip(x, (d + 1) as int);
            lemma_filler(x.skip((d + 1) as int), q);
            lemma_filler_bound(x.skip((d + 1) as int));
            let e = d + 1 + filler_len(x.skip((d + 1) as int));
            lemma_clean_skip(x, e as int);
            lemma_items(ListForm::Parenthesized, x.skip(e as int), q);
            lemma_items_bound(ListForm::Parenthesized, x.skip(e as int));
            if let Some((n, _)) = items(ListForm::Parenthesized, x.skip(e as int)) {
                lemma_clean_skip(x, (e + n) as int);
                lemma_filler(x.skip((e + n) as int), q);
                lemma_filler_bound(x.skip((e + n) as int));
                let f = e + n + filler_len(x.skip((e + n) as int));
                lemma_clean_skip(x, f as int);
                lemma_filler(x.skip(f as int), q);
                lemma_filler_bound(x.skip(f as int));
                if f < x.len() {
                    lemma_clean_skip(x, (f + 1) as int);
                    lemma_filler(x.skip((f + 1) as int), q);
                    lemma_filler_bound(x.skip((f + 1) as int));
                }
            }
        }
    }
}

proof fn lemma_statement(x: Seq<char>, q: Seq<char>)
    requires
        clean(x),
        quiet_tail(q),
    ensures
        statement(x + q) == statement(x),
{
    lemma_simple_import(x, q);
    lemma_from_import(x, q);
    lemma_paren_from_import(x, q);
}

proof fn lemma_statement_list(x: Seq<char>, q: Seq<char>, tc: bool)
    requires
        clean(x),
        quiet_tail(q),
    ensures
        statement_list(x + q, tc) == statement_list(x, tc),
        more_statements(x + q, tc) == more_statements(x, tc),
    decreases x.len(),
{
    reveal_with_fuel(statement_list, 1);
    reveal_with_fuel(more_statements, 1);
    lemma_statement(x, q);
    lemma_statement_bound(x);
    if let Some((n, names)) = statement(x) {
        lemma_clean_skip(x, n as int);
        lemma_statement_list(x.skip(n as int), q, tc);
        assert(statement_records(x + q, n, names, tc) =~= statement_records(x, n, names, tc));
    }
    lemma_hspace(x, q);
    lemma_hspace_bound(x);
    let a = hspace_len(x);
    if a < x.len() {
        lemma_clean_skip(x, (a + 1) as int);
        lemma_hspace(x.skip((a + 1) as int), q);
        lemma_hspace_bound(x.skip((a + 1) as int));
        let o = a + 1 + hspace_len(x.skip((a + 1) as int));
        lemma_clean_skip(x, o as int);
        lemma_statement_list(x.skip(o as int), q, tc);
    }
}


proof fn lemma_spaces_stop(u: Seq<char>)
    requires
        u.len() > 0,
        u.last() == '\n',
    ensures
        spaces_len(u) < u.len(),
        rest_of_line_len(u) < u.len(),
    decreases u.len(),
{
    if u.len() > 1 {
        assert(u.skip(1).last() == u.last());
        lemma_spaces_stop(u.skip(1));
    }
}

proof fn lemma_guard(x: Seq<char>, q: Seq<char>)
    requires
        clean(x),
        quiet_tail(q),
    ensures
        guard_len(x + q) == guard_len(x),
{
    reveal_strlit("if");
    reveal_strlit("TYPE_CHECKING");
    reveal_strlit("typing.TYPE_CHECKING");
    lemma_keywords(x, q);
    if starts_with(x, "if"@) {
        lemma_clean_skip(x, 2);
        lemma_hspace(x.skip(2), q);
        lemma_hspace_bound(x.skip(2));
        let a = 2 + hspace_len(x.skip(2));
        lemma_clean_skip(x, a as int);
        lemma_keywords(x.skip(a as int), q);
        let b: nat = if starts_with(x.skip(a as int), "TYPE_CHECKING"@) {
            a + 13
        } else if starts_with(x.skip(a as int), "typing.TYPE_CHECKING"@) {
            a + 20
        } else {
            a
        };
        if b > a {
            lemma_clean_skip(x, b as int);
            lemma_hspace(x.skip(b as int), q);
            lemma_hspace_bound(x.skip(b as int));
        }
    }
}

proof fn lemma_blank_lines(x: Seq<char>, q: Seq<char>)
    requires
        clean(x),
        quiet_tail(q),
    ensures
        blank_lines_len(x + q) == blank_lines_len(x),
    decreases x.len(),
{
    lemma_spaces(x, q);
    lemma_spaces_bound(x);
    let w = spaces_len(x);
    lemma_clean_skip(x, w as int);
    lemma_line_ending(x.skip(w as int), q);
    let e = line_ending_len(x.skip(w as int));
    if e > 0 {
        lemma_clean_skip(x, (w + e) as int);
        lemma_blank_lines(x.skip((w + e) as int), q);
    }
}

proof fn lemma_block_lines(x: Seq<char>, q: Seq<char>, ind: Seq<char>)
    requires
        clean(x),
        quiet_tail(q),
        ind.len() > 0,
        forall|k: int| 0 <= k < ind.len() ==> is_space(#[trigger] ind[k]),
    ensures
        block_lines_len(x + q, ind) == block_lines_len(x, ind),
    decreases x.len(),
{
    lemma_spaces(x, q);
    lemma_spaces_bound(x);
    let w = spaces_len(x);
    lemma_clean_skip(x, w as int);
    lemma_line_ending(x.skip(w as int), q);
    let e = line_ending_len(x.skip(w as int));
    assert(is_space(ind[0]));
    lemma_starts_with(x, q, ind);
    if e > 0 {
        lemma_clean_skip(x, (w + e) as int);
        lemma_block_lines(x.skip((w + e) as int), q, ind);
    } else if starts_with(x, ind) {
        assert(ind.len() < x.len()) by {
            if ind.len() == x.len() {
                assert(x.subrange(0, ind.len() as int)[x.len() - 1] == x.last());
            }
        }
        let u = x.skip(ind.len() as int);
        assert(u.last() == x.last());
        lemma_rest_of_line(u, q);
        lemma_spaces_stop(u);
        let r = ind.len() + rest_of_line_len(u);
        lemma_clean_skip(x, r as int);
        lemma_line_ending(x.skip(r as int), q);
        let f = r + line_ending_len(x.skip(r as int));
        lemma_clean_skip(x, f as int);
        lemma_block_lines(x.skip(f as int), q, ind);
    }
}

proof fn lemma_indented_block(x: Seq<char>, q: Seq<char>)
    requires
        clean(x),
        quiet_tail(q),
    ensures
        indented_block_len(x + q) == indented_block_len(x),
{
    lemma_blank_lines(x, q);
    lemma_blank_lines_bound(x);
    let a = blank_lines_len(x);
    lemma_clean_skip(x, a as int);
    lemma_spaces(x.skip(a as int), q);
    let w = spaces_len(x.skip(a as int));
    if w > 0 {
        let u = x.skip(a as int);
        assert(u.len() > 0);
        lemma_spaces_stop(u);
        let v = x.skip((a + w) as int);
        assert(v.len() > 0 && v.last() == x.last());
        lemma_rest_of_line(v, q);
        lemma_spaces_stop(v);
        let r = a + w + rest_of_line_len(v);
        lemma_clean_skip(x, r as int);
        lemma_line_ending(x.skip(r as int), q);
        let f = r + line_ending_len(x.skip(r as int));
        lemma_clean_skip(x, f as int);
        let ind = x.subrange(a as int, (a + w) as int);
        crate::laws::lemma_spaces_run(u);
        assert forall|k: int| 0 <= k < ind.len() implies is_space(#[trigger] ind[k]) by {
            assert(ind[k] == u[k]);
        }
        lemma_block_lines(x.skip(f as int), q, ind);
    }
}

proof fn lemma_guarded(x: Seq<char>, q: Seq<char>)
    requires
        clean(x),
        quiet_tail(q),
    ensures
        guard_len(x + q) == guard_len(x),
        after_guard(x + q) == after_guard(x),
        guarded_len(x + q) == guarded_len(x),
        guarded_len(x) > 0 ==> guarded_block_start((x + q).skip(after_guard(x) as int))
            == guarded_block_start(x.skip(after_guard(x) as int)),
        guarded_len(x) > 0 ==> guarded_block_len((x + q).skip(after_guard(x) as int))
            == guarded_block_len(x.skip(after_guard(x) as int)),
        guarded_len(x) > 0 ==> statement_list((x + q).skip(after_guard(x) as int), true)
            == statement_list(x.skip(after_guard(x) as int), true),
{
    lemma_guard(x, q);
    lemma_guard_bound(x);
    lemma_guarded_bounds(x);
    let h = guard_len(x);
    lemma_clean_skip(x, h as int);
    lemma_hspace(x.skip(h as int), q);
    if h > 0 {
        let a = after_guard(x);
        lemma_clean_skip(x, a as int);
        let u = x.skip(a as int);
        lemma_statement_list(u, q, true);
        lemma_statement_list_bound(u, true);
        if let Some((n, _)) = statement_list(u, true) {
            lemma_clean_skip(x, (a + n) as int);
            lemma_hspace(x.skip((a + n) as int), q);
            lemma_hspace_bound(x.skip((a + n) as int));
            let c = a + n + hspace_len(x.skip((a + n) as int));
            lemma_clean_skip(x, c as int);
            lemma_comment(x.skip(c as int), q);
        }
        lemma_comment(u, q);
        crate::lexer::lemma_comment_bound(u);
        let b = comment_len(u);
        lemma_clean_skip(u, b as int);
        lemma_line_ending(u.skip(b as int), q);
        let e = line_ending_len(u.skip(b as int));
        if b + e <= u.len() {
            lemma_clean_skip(u, (b + e) as int);
            lemma_indented_block(u.skip((b + e) as int), q);
        }
        assert((x + q).skip(a as int) == u + q);
    }
}

proof fn lemma_step(x: Seq<char>, q: Seq<char>, tc: bool)
    requires
        x.len() > 0,
        x.last() == '\n',
        quiet_tail(q),
    ensures
        step_len(x + q, tc) == step_len(x, tc),
        step_records(x + q, tc) == step_records(x, tc),
{
    lemma_guarded(x, q);
    lemma_hspace(x, q);
    lemma_line_ending(x, q);
    lemma_triple_quoted(x, q);
    lemma_comment(x, q);
    lemma_statement_list(x, q, tc);
    lemma_rest_of_line(x, q);
    lemma_step_records_unfold(x, tc);
    lemma_step_records_unfold(x + q, tc);
    lemma_guarded_records_unfold(x);
    lemma_guarded_records_unfold(x + q);
    if guarded_len(x) > 0 {
        lemma_guarded_bounds(x);
        let a = after_guard(x);
        let u = x.skip(a as int);
        if statement_list(u, true) is None {
            lemma_guarded_block_bounds(u);
            let st = guarded_block_start(u);
            let en = guarded_block_len(u);
            assert((u + q).subrange(st as int, en as int) == u.subrange(st as int, en as int));
        }
    }
}

/// The walk over `x + q` passes through the end of `x`: what is found in
/// `x` stays as it was, followed by what is found in `q`.
proof fn lemma_block_split(x: Seq<char>, q: Seq<char>, tc: bool)
    requires
        clean(x),
        quiet_tail(q),
    ensures
        block_records(x + q, tc) == block_records(x, tc) + shift(block_records(q, tc), x.len()),
    decreases x.len(),
{
    if x.len() == 0 {
        assert(x + q =~= q);
        lemma_block_records_unfold(x, tc);
        lemma_shift_zero(block_records(q, tc));
        assert(Seq::<Rec>::empty() + block_records(q, tc) =~= block_records(q, tc));
    } else {
        lemma_step(x, q, tc);
        lemma_step_bounds(x, tc);
        lemma_block_records_unfold(x, tc);
        lemma_block_records_unfold(x + q, tc);
        let n = step_len(x, tc);
        lemma_clean_skip(x, n as int);
        lemma_block_split(x.skip(n as int), q, tc);
        let rest = block_records(x.skip(n as int), tc);
        let tail = block_records(q, tc);
        lemma_shift_concat(rest, shift(tail, (x.len() - n) as nat), n);
        lemma_shift_shift(tail, (x.len() - n) as nat, n);
        assert(step_records(x, tc) + (shift(rest, n) + shift(tail, x.len())) =~= (step_records(
            x,
            tc,
        ) + shift(rest, n)) + shift(tail, x.len()));
    }
}

/// Appending whole lines of other code after a line break changes nothing,
/// when the first appended line starts with an inert character and no
/// triple quote stands in what is appended: the same imports come out, on
/// the same lines.
pub proof fn law_plain_code_suffix(s: Seq<char>, q: Seq<char>, tc: bool)
    requires
        clean(s),
        plain_code(q),
        quiet_tail(q),
    ensures
        block_records(s + q, tc) == block_records(s, tc),
        forall|x: int| 0 <= x <= s.len() ==> #[trigger] line_at(s + q, x) == line_at(s, x),
{
    lemma_block_split(s, q, tc);
    law_plain_code_prefix(q, Seq::empty(), tc);
    assert(q + Seq::<char>::empty() =~= q);
    lemma_block_records_unfold(Seq::<char>::empty(), tc);
    assert(shift(Seq::<Rec>::empty(), q.len()) =~= Seq::<Rec>::empty());
    assert(shift(Seq::<Rec>::empty(), s.len()) =~= Seq::<Rec>::empty());
    assert(block_records(s, tc) + Seq::<Rec>::empty() =~= block_records(s, tc));
    assert forall|x: int| 0 <= x <= s.len() implies #[trigger] line_at(s + q, x) == line_at(s, x) by {
        assert((s + q).subrange(0, x) == s.subrange(0, x));
    }
}

} // verus!
