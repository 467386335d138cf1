//! Properties of the extractor as a whole, proved over the model.
use vstd::prelude::*;
use crate::lexer::{
    starts_with, hspace_len, lemma_hspace_bound, rest_of_line_len, line_ending_len, comment_len,
    triple_quoted_len, find, triple_double, triple_single, spaces_len, is_space, is_ident_char,
    ident_len, module_len, module_rest_len, dots_len, relative_module_len, lemma_module_bound,
    lemma_ident_bound, lemma_dots_bound,
};
use crate::records::{Rec, shift, newlines, line_at, number_of_lines};
use crate::statements::{
    ListForm, items, more_items, item_name_len, item_len, separator_len, lemma_item_bound,
    lemma_separator_bound, canonical_name, qualified, from_import, paren_from_import,
    wildcard_import, lemma_from_head_bound,
    statement, statement_list, more_statements, statement_records, lemma_statement_bound,
    lemma_statement_list_bound, lemma_statement_list_step, lemma_more_statements_step,
    simple_import, from_head,
};
use crate::block::{
    guard_len, block_records, step_records, guarded_records, step_len, guarded_len, after_guard,
    guarded_block_start, guarded_block_len, lemma_block_records_unfold, lemma_step_records_unfold,
    lemma_guarded_records_unfold, lemma_guarded_bounds, lemma_guarded_block_bounds,
    lemma_step_bounds,
};
use crate::extracted;

verus! {

broadcast use crate::window::lemma_window_skip;

/// The records lie in order within the first `n` characters of `t`, each
/// at a character that is not a line break.
pub open spec fn placed(recs: Seq<Rec>, t: Seq<char>, n: int) -> bool {
    &&& 0 <= n <= t.len()
    &&& forall|i: int, j: int|
        0 <= i <= j < recs.len() ==> #[trigger] recs[i].start <= #[trigger] recs[j].start
    &&& forall|i: int|
        0 <= i < recs.len() ==> #[trigger] recs[i].start < n && t[recs[i].start as int] != '\n'
}

proof fn lemma_placed_shift(recs: Seq<Rec>, t: Seq<char>, k: int, m: int, n: int)
    requires
        0 <= k <= m <= t.len(),
        placed(recs, t.subrange(k, m), n),
    ensures
        placed(shift(recs, k as nat), t, k + n),
        forall|i: int| 0 <= i < recs.len() ==> #[trigger] shift(recs, k as nat)[i].start >= k,
{
    let sh = shift(recs, k as nat);
    assert forall|i: int| 0 <= i < sh.len() implies #[trigger] sh[i].start < k + n && t[sh[i].start as int]
        != '\n' by {
        assert(t.subrange(k, m)[recs[i].start as int] == t[k + recs[i].start]);
    }
    assert forall|i: int, j: int| 0 <= i <= j < sh.len() implies #[trigger] sh[i].start
        <= #[trigger] sh[j].start by {
        assert(recs[i].start <= recs[j].start);
    }
}

proof fn lemma_placed_concat(x: Seq<Rec>, y: Seq<Rec>, t: Seq<char>, k: int, n: int)
    requires
        placed(x, t, k),
        placed(y, t.subrange(k, t.len() as int), n),
    ensures
        placed(x + shift(y, k as nat), t, k + n),
{
    lemma_placed_shift(y, t, k, t.len() as int, n);
    let all = x + shift(y, k as nat);
    let sh = shift(y, k as nat);
    assert forall|i: int| 0 <= i < all.len() implies #[trigger] all[i].start < k + n && t[all[i].start as int]
        != '\n' by {
        if i >= x.len() {
            assert(all[i] == sh[i - x.len()]);
        }
    }
    assert forall|i: int, j: int| 0 <= i <= j < all.len() implies #[trigger] all[i].start
        <= #[trigger] all[j].start by {
        if j < x.len() {
        } else if i < x.len() {
            assert(all[j] == sh[j - x.len()]);
            assert(sh[j - x.len()].start >= k);
        } else {
            assert(all[i] == sh[i - x.len()]);
            assert(all[j] == sh[j - x.len()]);
        }
    }
}

proof fn lemma_statement_list_placed(t: Seq<char>, tc: bool)
    ensures
        statement_list(t, tc) matches Some((n, recs)) ==> placed(recs, t, n as int),
    decreases t.len(),
{
    lemma_statement_list_step(t, 0, t.len() as int, tc);
    assert(t.subrange(0, t.len() as int) =~= t);
    lemma_statement_list_bound(t, tc);
    if let Some((n, names)) = statement(t) {
        lemma_statement_bound(t);
        lemma_statement_starts_with_keyword(t);
        let first = statement_records(t, n, names, tc);
        let u = t.skip(n as int);
        lemma_more_statements_step(t, n as int, t.len() as int, tc);
        assert(t.subrange(n as int, t.len() as int) == u);
        let a = hspace_len(u);
        lemma_hspace_bound(u);
        let more = more_statements(u, tc);
        // what follows is placed within `u`
        if a < u.len() && u[a as int] == ';' {
            lemma_hspace_bound(u.skip((a + 1) as int));
            let o = a + 1 + hspace_len(u.skip((a + 1) as int));
            assert(u.skip(o as int) == t.skip((n + o) as int));
            lemma_statement_list_placed(u.skip(o as int), tc);
            if let Some((m, rest)) = statement_list(u.skip(o as int), tc) {
                assert(u.skip(o as int) =~= u.subrange(o as int, u.len() as int));
                lemma_placed_shift(rest, u, o as int, u.len() as int, m as int);
            }
        }
        assert(placed(more.1, u, more.0 as int));
        assert(placed(first, t, n as int)) by {
            assert forall|i: int| 0 <= i < first.len() implies #[trigger] first[i].start == 0 by {}
        }
        lemma_placed_concat(first, more.1, t, n as int, more.0 as int);
    }
}


proof fn lemma_placed_widen(recs: Seq<Rec>, t: Seq<char>, n: int, m: int)
    requires
        placed(recs, t, n),
        n <= m <= t.len(),
    ensures
        placed(recs, t, m),
{
}

proof fn lemma_block_placed(t: Seq<char>, tc: bool)
    ensures
        placed(block_records(t, tc), t, t.len() as int),
        placed(guarded_records(t), t, guarded_len(t) as int),
        t.len() > 0 ==> placed(step_records(t, tc), t, step_len(t, tc) as int),
    decreases t.len(),
{
    lemma_guarded_records_unfold(t);
    lemma_guarded_bounds(t);
    lemma_step_bounds(t, tc);
    if guarded_len(t) > 0 {
        let a = after_guard(t);
        let u = t.skip(a as int);
        lemma_statement_list_placed(u, true);
        if let Some((n, recs)) = statement_list(u, true) {
            lemma_placed_shift(recs, t, a as int, t.len() as int, n as int);
            lemma_placed_widen(shift(recs, a as nat), t, (a + n) as int, guarded_len(t) as int);
        } else {
            lemma_guarded_block_bounds(u);
            let st = guarded_block_start(u);
            let en = guarded_block_len(u);
            let sub = u.subrange(st as int, en as int);
            assert(sub =~= t.subrange((a + st) as int, (a + en) as int));
            lemma_block_placed(sub, true);
            lemma_placed_shift(
                block_records(sub, true),
                t,
                (a + st) as int,
                (a + en) as int,
                sub.len() as int,
            );
        }
    }
    if t.len() > 0 {
        lemma_step_records_unfold(t, tc);
        lemma_statement_list_placed(t, tc);
        let n = step_len(t, tc);
        lemma_block_placed(t.skip(n as int), tc);
        lemma_block_records_unfold(t, tc);
        lemma_placed_concat(
            step_records(t, tc),
            block_records(t.skip(n as int), tc),
            t,
            n as int,
            (t.len() - n) as int,
        );
    } else {
        lemma_block_records_unfold(t, tc);
    }
}

proof fn lemma_line_at_monotonic(s: Seq<char>, p: int, q: int)
    requires
        0 <= p <= q <= s.len(),
    ensures
        line_at(s, p) <= line_at(s, q),
{
    crate::records::lemma_newlines_prefix(s.subrange(0, q), p);
    assert(s.subrange(0, q).subrange(0, p) =~= s.subrange(0, p));
}

/// Imports come out in source order: the statements they come from start
/// at non-decreasing offsets, so their line numbers never decrease, and
/// imports of one line keep their left-to-right order.
pub proof fn law_source_order(s: Seq<char>)
    ensures
        forall|i: int, j: int|
            0 <= i <= j < extracted(s).len() ==> {
                &&& #[trigger] extracted(s)[i].start <= #[trigger] extracted(s)[j].start
                &&& line_at(s, extracted(s)[i].start as int) <= line_at(
                    s,
                    extracted(s)[j].start as int,
                )
            },
{
    lemma_block_placed(s, false);
    let recs = extracted(s);
    assert forall|i: int, j: int| 0 <= i <= j < recs.len() implies {
        &&& #[trigger] recs[i].start <= #[trigger] recs[j].start
        &&& line_at(s, recs[i].start as int) <= line_at(s, recs[j].start as int)
    } by {
        assert(recs[i].start <= recs[j].start);
        assert(recs[j].start < s.len());
        lemma_line_at_monotonic(s, recs[i].start as int, recs[j].start as int);
    }
}

/// Every line number lies between 1 and the number of lines of the text.
pub proof fn law_line_numbers_in_range(s: Seq<char>)
    ensures
        forall|i: int|
            0 <= i < extracted(s).len() ==> 1 <= line_at(s, #[trigger] extracted(s)[i].start as int)
                <= number_of_lines(s),
{
    lemma_block_placed(s, false);
    let recs = extracted(s);
    assert forall|i: int| 0 <= i < recs.len() implies 1 <= line_at(
        s,
        #[trigger] recs[i].start as int,
    ) <= number_of_lines(s) by {
        let p = recs[i].start as int;
        assert(p < s.len() && s[p] != '\n');
        if s.last() == '\n' {
            let body = s.drop_last();
            crate::records::lemma_newlines_prefix(body, p);
            assert(body.subrange(0, p) =~= s.subrange(0, p));
        } else {
            crate::records::lemma_newlines_prefix(s, p);
        }
    }
}


/// Whether offset `pos` of `t` lies inside a construct that the driver,
/// walking `t` from its start, recognises as an `if TYPE_CHECKING:` guard.
pub open spec fn in_guarded_region(t: Seq<char>, pos: int) -> bool
    decreases t.len(),
{
    if t.len() == 0 || pos < 0 {
        false
    } else {
        let n = step_len(t, false);
        proof {
            lemma_step_bounds(t, false);
        }
        if pos < n {
            guarded_len(t) > 0
        } else {
            in_guarded_region(t.skip(n as int), pos - n)
        }
    }
}

proof fn lemma_statement_list_flags(t: Seq<char>, tc: bool)
    ensures
        statement_list(t, tc) matches Some((_, recs)) ==> forall|i: int|
            0 <= i < recs.len() ==> (#[trigger] recs[i]).tc == tc,
    decreases t.len(),
{
    lemma_statement_list_step(t, 0, t.len() as int, tc);
    assert(t.subrange(0, t.len() as int) =~= t);
    if let Some((n, names)) = statement(t) {
        lemma_statement_bound(t);
        let first = statement_records(t, n, names, tc);
        let u = t.skip(n as int);
        lemma_more_statements_step(t, n as int, t.len() as int, tc);
        let a = hspace_len(u);
        lemma_hspace_bound(u);
        if a < u.len() && u[a as int] == ';' {
            lemma_hspace_bound(u.skip((a + 1) as int));
            let o = a + 1 + hspace_len(u.skip((a + 1) as int));
            lemma_statement_list_flags(u.skip(o as int), tc);
        }
        let more = more_statements(u, tc);
        let all = first + shift(more.1, n);
        assert forall|i: int| 0 <= i < all.len() implies (#[trigger] all[i]).tc == tc by {
            if i >= first.len() {
                assert(all[i] == shift(more.1, n)[i - first.len()]);
            }
        }
    }
}

proof fn lemma_flagged(t: Seq<char>)
    ensures
        forall|i: int|
            0 <= i < block_records(t, true).len() ==> (#[trigger] block_records(t, true)[i]).tc,
        forall|i: int| 0 <= i < guarded_records(t).len() ==> (#[trigger] guarded_records(t)[i]).tc,
    decreases t.len(),
{
    lemma_guarded_records_unfold(t);
    lemma_guarded_bounds(t);
    lemma_step_bounds(t, true);
    if guarded_len(t) > 0 {
        let a = after_guard(t);
        let u = t.skip(a as int);
        lemma_statement_list_flags(u, true);
        if statement_list(u, true) is None {
            lemma_guarded_block_bounds(u);
            let sub = u.subrange(guarded_block_start(u) as int, guarded_block_len(u) as int);
            lemma_flagged(sub);
        }
        let g = guarded_records(t);
        assert forall|i: int| 0 <= i < g.len() implies (#[trigger] g[i]).tc by {
            if let Some((_, recs)) = statement_list(u, true) {
                assert(g[i].tc == recs[i].tc);
            } else {
                let sub = u.subrange(guarded_block_start(u) as int, guarded_block_len(u) as int);
                assert(g[i].tc == block_records(sub, true)[i].tc);
            }
        }
    }
    lemma_block_records_unfold(t, true);
    if t.len() > 0 {
        lemma_step_records_unfold(t, true);
        lemma_statement_list_flags(t, true);
        let n = step_len(t, true);
        lemma_flagged(t.skip(n as int));
        let x = step_records(t, true);
        let y = shift(block_records(t.skip(n as int), true), n);
        let b = block_records(t, true);
        assert forall|i: int| 0 <= i < b.len() implies (#[trigger] b[i]).tc by {
            if i < x.len() {
                assert(b[i] == x[i]);
            } else {
                assert(b[i] == y[i - x.len()]);
                assert(y[i - x.len()].tc == block_records(t.skip(n as int), true)[i - x.len()].tc);
            }
        }
    }
}

proof fn lemma_flag_iff_region(t: Seq<char>)
    ensures
        forall|i: int|
            0 <= i < block_records(t, false).len() ==> (#[trigger] block_records(t, false)[i]).tc
                == in_guarded_region(t, block_records(t, false)[i].start as int),
    decreases t.len(),
{
    lemma_block_records_unfold(t, false);
    if t.len() > 0 {
        lemma_step_bounds(t, false);
        lemma_step_records_unfold(t, false);
        lemma_statement_list_flags(t, false);
        lemma_flagged(t);
        lemma_block_placed(t, false);
        let n = step_len(t, false);
        let rest = t.skip(n as int);
        lemma_flag_iff_region(rest);
        let x = step_records(t, false);
        let y = shift(block_records(rest, false), n);
        let b = block_records(t, false);
        assert forall|i: int| 0 <= i < b.len() implies (#[trigger] b[i]).tc == in_guarded_region(
            t,
            b[i].start as int,
        ) by {
            if i < x.len() {
                assert(b[i] == x[i]);
                assert(x[i].start < n);
                if guarded_len(t) > 0 {
                    assert(x[i] == guarded_records(t)[i]);
                } else if let Some((_, recs)) = statement_list(t, false) {
                    if !(hspace_len(t) > 0 || crate::lexer::line_ending_len(t) > 0
                        || crate::lexer::triple_quoted_len(t) > 0 || crate::lexer::comment_len(t)
                        > 0) {
                        assert(x[i] == recs[i]);
                    }
                }
            } else {
                let k = i - x.len();
                assert(b[i] == y[k]);
                assert(y[k].start == block_records(rest, false)[k].start + n);
                assert(y[k].tc == block_records(rest, false)[k].tc);
            }
        }
    }
}

/// An import is flagged as typechecking-only exactly when its statement lies
/// inside a recognised `if TYPE_CHECKING:` region.
pub proof fn law_typechecking_flag(s: Seq<char>)
    ensures
        forall|i: int|
            0 <= i < extracted(s).len() ==> (#[trigger] extracted(s)[i]).tc == in_guarded_region(
                s,
                extracted(s)[i].start as int,
            ),
{
    lemma_flag_iff_region(s);
}


proof fn lemma_rest_of_line_prefix(c: Seq<char>, rest: Seq<char>)
    requires
        forall|k: int| 0 <= k < c.len() ==> c[k] != '\n' && c[k] != '\r',
        rest.len() == 0 || rest[0] == '\n',
    ensures
        rest_of_line_len(c + rest) == c.len(),
    decreases c.len(),
{
    if c.len() == 0 {
        assert(c + rest =~= rest);
    } else {
        assert((c + rest).skip(1) =~= c.skip(1) + rest);
        lemma_rest_of_line_prefix(c.skip(1), rest);
    }
}

/// Nothing is recognised at a character that cannot start a guard, a
/// statement, whitespace, a line break, a literal or a comment: the driver
/// consumes the rest of the line, and that yields no record.
proof fn lemma_no_guard(t: Seq<char>)
    requires
        t.len() > 0 && t[0] != 'i',
    ensures
        guard_len(t) == 0,
        guarded_len(t) == 0,
{
    reveal_strlit("if");
    if starts_with(t, "if"@) {
        assert(t.subrange(0, 2)[0] == "if"@[0]);
    }
}

proof fn lemma_no_statement(t: Seq<char>, tc: bool)
    requires
        t.len() > 0 && t[0] != 'i' && t[0] != 'f',
    ensures
        statement(t) is None,
        statement_list(t, tc) is None,
{
    if statement(t) is Some {
        lemma_statement_starts_with_keyword(t);
    }
    lemma_statement_list_step(t, 0, t.len() as int, tc);
    assert(t.subrange(0, t.len() as int) =~= t);
}

proof fn lemma_statement_starts_with_keyword(t: Seq<char>)
    requires
        statement(t) is Some,
    ensures
        t[0] == 'i' || t[0] == 'f',
{
    reveal_strlit("import");
    reveal_strlit("from");
    if simple_import(t) is Some {
        assert(t.subrange(0, 6)[0] == "import"@[0]);
    } else {
        assert(from_head(t) is Some);
        assert(t.subrange(0, 4)[0] == "from"@[0]);
    }
}

/// A `#` comment yields no import: the text after it is parsed as if the
/// comment were not there.
pub proof fn law_comment_yields_nothing(c: Seq<char>, rest: Seq<char>, tc: bool)
    requires
        forall|k: int| 0 <= k < c.len() ==> c[k] != '\n' && c[k] != '\r',
        rest.len() == 0 || rest[0] == '\n',
    ensures
        block_records(seq!['#'] + c + rest, tc) == shift(block_records(rest, tc), c.len() + 1),
{
    let t = seq!['#'] + c + rest;
    lemma_no_guard(t);
    assert(t.skip(1) =~= c + rest);
    lemma_rest_of_line_prefix(c, rest);
    assert(comment_len(t) == c.len() + 1);
    assert(t[0] == '#');
    assert(!starts_with(t, triple_double())) by {
        if starts_with(t, triple_double()) {
            assert(t.subrange(0, 3)[0] == t[0]);
        }
    }
    assert(!starts_with(t, triple_single())) by {
        if starts_with(t, triple_single()) {
            assert(t.subrange(0, 3)[0] == t[0]);
        }
    }
    lemma_step_records_unfold(t, tc);
    lemma_block_records_unfold(t, tc);
    assert(t.skip((c.len() + 1) as int) =~= rest);
    assert(Seq::<Rec>::empty() + shift(block_records(rest, tc), c.len() + 1) =~= shift(
        block_records(rest, tc),
        c.len() + 1,
    ));
}

proof fn lemma_find_at(u: Seq<char>, q: Seq<char>, m: int)
    requires
        0 <= m <= u.len(),
        starts_with(u.skip(m), q),
        forall|k: int| 0 <= k < m ==> !starts_with(#[trigger] u.skip(k), q),
    ensures
        find(u, q) == Some(m as nat),
    decreases m,
{
    if m == 0 {
        assert(u.skip(0) =~= u);
    } else {
        assert(u.skip(0) =~= u);
        assert forall|k: int| 0 <= k < m - 1 implies !starts_with(#[trigger] u.skip(1).skip(k), q) by {
            assert(u.skip(1).skip(k) =~= u.skip(k + 1));
        }
        assert(u.skip(1).skip(m - 1) =~= u.skip(m));
        lemma_find_at(u.skip(1), q, m - 1);
    }
}

/// A triple-quoted literal yields no import: the text after it is parsed
/// as if the literal were not there. `body` holds no closing quote.
pub proof fn law_triple_quoted_yields_nothing(
    q: Seq<char>,
    body: Seq<char>,
    rest: Seq<char>,
    tc: bool,
)
    requires
        q == triple_double() || q == triple_single(),
        forall|k: int| 0 <= k < body.len() ==> !starts_with(#[trigger] (body + q).skip(k), q),
    ensures
        block_records(q + body + q + rest, tc) == shift(block_records(rest, tc), body.len() + 6),
{
    let t = q + body + q + rest;
    let u = body + q + rest;
    assert(t[0] == q[0]);
    lemma_no_guard(t);
    assert(t.skip(3) =~= u);
    assert forall|k: int| 0 <= k < body.len() implies !starts_with(#[trigger] u.skip(k), q) by {
        assert(u.skip(k).subrange(0, 3) =~= (body + q).skip(k).subrange(0, 3));
    }
    assert(u.skip(body.len() as int).subrange(0, 3) =~= q);
    lemma_find_at(u, q, body.len() as int);
    assert(starts_with(t, q)) by {
        assert(t.subrange(0, 3) =~= q);
    }
    if q == triple_single() {
        assert(!starts_with(t, triple_double())) by {
            assert(t.subrange(0, 3)[0] != triple_double()[0]);
        }
    }
    assert(triple_quoted_len(t) == body.len() + 6);
    lemma_step_records_unfold(t, tc);
    lemma_block_records_unfold(t, tc);
    assert(t.skip((body.len() + 6) as int) =~= rest);
    assert(Seq::<Rec>::empty() + shift(block_records(rest, tc), body.len() + 6) =~= shift(
        block_records(rest, tc),
        body.len() + 6,
    ));
}


/// A character that, first on a line after the blanks, could open a
/// construct that the driver recognises.
pub open spec fn opens_construct(c: char) -> bool {
    c == 'i' || c == 'f' || c == '#' || c == '"' || c == '\'' || c == '\\'
}

/// A line whose first non-blank character, if any, opens nothing.
pub open spec fn plain_line_start(u: Seq<char>) -> bool {
    let w = spaces_len(u);
    w < u.len() && (u[w as int] == '\n' || !opens_construct(u[w as int]))
}

/// Whole lines of other code: the text ends with a line break, holds no
/// carriage return, and no line starts, after its blanks, with a character
/// that opens a construct.
pub open spec fn plain_code(p: Seq<char>) -> bool {
    &&& p.len() == 0 || p.last() == '\n'
    &&& forall|k: int| 0 <= k < p.len() ==> p[k] != '\r'
    &&& forall|j: int|
        0 <= j < p.len() && (j == 0 || p[j - 1] == '\n') ==> #[trigger] plain_line_start(
            p.skip(j),
        )
}

pub proof fn lemma_spaces_run(t: Seq<char>)
    ensures
        forall|k: int| 0 <= k < spaces_len(t) ==> is_space(#[trigger] t[k]),
        spaces_len(t) <= t.len(),
        spaces_len(t) < t.len() ==> !is_space(t[spaces_len(t) as int]),
    decreases t.len(),
{
    if t.len() > 0 && is_space(t[0]) {
        lemma_spaces_run(t.skip(1));
        assert forall|k: int| 0 <= k < spaces_len(t) implies is_space(#[trigger] t[k]) by {
            if k > 0 {
                assert(t.skip(1)[k - 1] == t[k]);
            }
        }
    }
}

proof fn lemma_hspace_over_spaces(t: Seq<char>, w: int)
    requires
        0 <= w < t.len(),
        forall|k: int| 0 <= k < w ==> is_space(#[trigger] t[k]),
        !is_space(t[w]),
        t[w] != '\\',
    ensures
        hspace_len(t) == w,
    decreases w,
{
    if w > 0 {
        assert(is_space(t[0]));
        assert forall|k: int| 0 <= k < w - 1 implies is_space(#[trigger] t.skip(1)[k]) by {
            assert(t.skip(1)[k] == t[k + 1]);
        }
        lemma_hspace_over_spaces(t.skip(1), w - 1);
    }
}

/// A step that yields no record: the block is what follows it, shifted.
proof fn lemma_silent_step(t: Seq<char>, tc: bool)
    requires
        t.len() > 0,
        step_records(t, tc) == Seq::<Rec>::empty(),
    ensures
        block_records(t, tc) == shift(
            block_records(t.skip(step_len(t, tc) as int), tc),
            step_len(t, tc),
        ),
{
    lemma_block_records_unfold(t, tc);
    assert(Seq::<Rec>::empty() + shift(
        block_records(t.skip(step_len(t, tc) as int), tc),
        step_len(t, tc),
    ) =~= shift(block_records(t.skip(step_len(t, tc) as int), tc), step_len(t, tc)));
}

proof fn lemma_quotes_absent(t: Seq<char>)
    requires
        t.len() > 0,
        t[0] != '"' && t[0] != '\'',
    ensures
        triple_quoted_len(t) == 0,
{
    if starts_with(t, triple_double()) {
        assert(t.subrange(0, 3)[0] == t[0]);
    }
    if starts_with(t, triple_single()) {
        assert(t.subrange(0, 3)[0] == t[0]);
    }
}

/// The line `t[..len]` of other code yields nothing.
proof fn lemma_plain_line(t: Seq<char>, len: int, tc: bool)
    requires
        0 < len <= t.len(),
        t[len - 1] == '\n',
        forall|k: int| 0 <= k < len - 1 ==> t[k] != '\n' && t[k] != '\r',
        plain_line_start(t),
    ensures
        block_records(t, tc) == shift(block_records(t.skip(len), tc), len as nat),
{
    lemma_spaces_run(t);
    let w = spaces_len(t) as int;
    assert(w <= len - 1) by {
        if w > len - 1 {
            assert(is_space(t[len - 1]));
        }
    }
    let t1 = t.skip(w);
    // the line break that ends the line
    let t2 = t.skip(len - 1);
    assert(t2[0] == '\n');
    lemma_no_guard(t2);
    lemma_step_records_unfold(t2, tc);
    assert(line_ending_len(t2) == 1);
    lemma_silent_step(t2, tc);
    assert(t2.skip(1) =~= t.skip(len));
    // the body of the line
    if w < len - 1 {
        let c = t1[0];
        assert(c == t[w]);
        assert(!opens_construct(c) && !is_space(c) && c != '\n' && c != '\r');
        lemma_no_guard(t1);
        lemma_no_statement(t1, tc);
        lemma_quotes_absent(t1);
        lemma_step_records_unfold(t1, tc);
        let body = t.subrange(w, len - 1);
        assert(t1 =~= body + t2);
        lemma_rest_of_line_prefix(body, t2);
        lemma_silent_step(t1, tc);
        assert(t1.skip(len - 1 - w) =~= t2);
        crate::records::lemma_shift_shift(block_records(t.skip(len), tc), 1, (len - 1 - w) as nat);
    } else {
        assert(t1 =~= t2);
    }
    // the blanks that open the line
    if w > 0 {
        assert(t[0] != 'i');
        lemma_no_guard(t);
        lemma_hspace_over_spaces(t, w);
        lemma_step_records_unfold(t, tc);
        lemma_silent_step(t, tc);
        crate::records::lemma_shift_shift(block_records(t.skip(len), tc), (len - w) as nat, w as nat);
    } else {
        assert(t.skip(0) =~= t);
    }
}

proof fn lemma_first_line(p: Seq<char>)
    requires
        p.len() > 0,
        p.last() == '\n',
        forall|k: int| 0 <= k < p.len() ==> p[k] != '\r',
    ensures
        rest_of_line_len(p) < p.len(),
        p[rest_of_line_len(p) as int] == '\n',
        forall|k: int| 0 <= k < rest_of_line_len(p) ==> p[k] != '\n',
    decreases p.len(),
{
    if p[0] != '\n' {
        assert(p.len() > 1);
        assert(p.skip(1).last() == p.last());
        lemma_first_line(p.skip(1));
        assert forall|k: int| 0 <= k < rest_of_line_len(p) implies p[k] != '\n' by {
            if k > 0 {
                assert(p.skip(1)[k - 1] == p[k]);
            }
        }
    }
}

proof fn lemma_spaces_prefix(p: Seq<char>, s: Seq<char>)
    requires
        spaces_len(p) < p.len(),
    ensures
        spaces_len(p + s) == spaces_len(p),
    decreases p.len(),
{
    if p.len() > 0 && is_space(p[0]) {
        assert((p + s).skip(1) =~= p.skip(1) + s);
        lemma_spaces_prefix(p.skip(1), s);
    }
}

proof fn lemma_newlines_concat(a: Seq<char>, b: Seq<char>)
    ensures
        newlines(a + b) == newlines(a) + newlines(b),
    decreases b.len(),
{
    if b.len() == 0 {
        assert(a + b =~= a);
    } else {
        assert((a + b).drop_last() =~= a + b.drop_last());
        lemma_newlines_concat(a, b.drop_last());
    }
}

/// Prepending whole lines of other code changes nothing but positions:
/// the same imports come out, on lines moved down by the number of lines
/// prepended.
pub proof fn law_plain_code_prefix(p: Seq<char>, s: Seq<char>, tc: bool)
    requires
        plain_code(p),
    ensures
        block_records(p + s, tc) == shift(block_records(s, tc), p.len()),
        forall|x: int|
            0 <= x <= s.len() ==> line_at(p + s, p.len() + x) == newlines(p) + #[trigger] line_at(
                s,
                x,
            ),
    decreases p.len(),
{
    assert forall|x: int| 0 <= x <= s.len() implies line_at(p + s, p.len() + x) == newlines(p)
        + #[trigger] line_at(s, x) by {
        assert((p + s).subrange(0, p.len() + x) =~= p + s.subrange(0, x));
        lemma_newlines_concat(p, s.subrange(0, x));
    }
    if p.len() == 0 {
        assert(p + s =~= s);
        crate::records::lemma_shift_zero(block_records(s, tc));
    } else {
        lemma_first_line(p);
        let len = rest_of_line_len(p) + 1;
        let t = p + s;
        let q = p.skip(len as int);
        assert(plain_line_start(p.skip(0)));
        assert(p.skip(0) =~= p);
        lemma_spaces_run(p);
        lemma_spaces_prefix(p, s);
        assert(plain_line_start(t)) by {
            assert(t[spaces_len(p) as int] == p[spaces_len(p) as int]);
        }
        lemma_plain_line(t, len as int, tc);
        assert(t.skip(len as int) =~= q + s);
        assert(plain_code(q)) by {
            assert forall|j: int| 0 <= j < q.len() && (j == 0 || q[j - 1] == '\n') implies #[trigger] plain_line_start(
                q.skip(j),
            ) by {
                assert(q.skip(j) =~= p.skip(len + j));
                assert(plain_line_start(p.skip(len + j)));
            }
            if q.len() > 0 {
                assert(q.last() == p.last());
            }
        }
        law_plain_code_prefix(q, s, tc);
        crate::records::lemma_shift_shift(block_records(s, tc), q.len(), len);
    }
}


/// A reported name: not empty, made of identifier characters and dots,
/// with at most a final `*`.
pub open spec fn well_formed_name(n: Seq<char>) -> bool {
    &&& n.len() > 0
    &&& forall|k: int|
        0 <= k < n.len() ==> is_ident_char(#[trigger] n[k]) || n[k] == '.' || (n[k] == '*' && k
            == n.len() - 1)
}

/// Identifier characters and dots only.
pub open spec fn dotted(n: Seq<char>) -> bool {
    forall|k: int| 0 <= k < n.len() ==> is_ident_char(#[trigger] n[k]) || n[k] == '.'
}

proof fn lemma_ident_dotted(t: Seq<char>)
    ensures
        ident_len(t) <= t.len(),
        dotted(t.subrange(0, ident_len(t) as int)),
        forall|k: int| 0 <= k < ident_len(t) ==> is_ident_char(#[trigger] t[k]),
    decreases t.len(),
{
    if t.len() > 0 && is_ident_char(t[0]) {
        lemma_ident_dotted(t.skip(1));
        assert forall|k: int| 0 <= k < ident_len(t) implies is_ident_char(#[trigger] t[k]) by {
            if k > 0 {
                assert(t.skip(1)[k - 1] == t[k]);
            }
        }
    }
}

proof fn lemma_module_dotted(t: Seq<char>)
    ensures
        module_rest_len(t) <= t.len(),
        forall|k: int| 0 <= k < module_rest_len(t) ==> is_ident_char(#[trigger] t[k]) || t[k] == '.',
    decreases t.len(),
{
    if t.len() > 0 && is_ident_char(t[0]) {
        lemma_module_dotted(t.skip(1));
        assert forall|k: int| 0 <= k < module_rest_len(t) implies is_ident_char(#[trigger] t[k])
            || t[k] == '.' by {
            if k > 0 {
                assert(t.skip(1)[k - 1] == t[k]);
            }
        }
    } else if t.len() > 1 && t[0] == '.' && is_ident_char(t[1]) {
        lemma_module_dotted(t.skip(2));
        assert forall|k: int| 0 <= k < module_rest_len(t) implies is_ident_char(#[trigger] t[k])
            || t[k] == '.' by {
            if k > 1 {
                assert(t.skip(2)[k - 2] == t[k]);
            }
        }
    }
}

proof fn lemma_relative_module_dotted(t: Seq<char>)
    ensures
        relative_module_len(t) <= t.len(),
        dotted(t.subrange(0, relative_module_len(t) as int)),
        module_len(t) <= t.len(),
        dotted(t.subrange(0, module_len(t) as int)),
    decreases t.len(),
{
    lemma_dots_bound(t);
    lemma_module_bound(t);
    if t.len() > 0 {
        lemma_module_dotted(t.skip(1));
        assert forall|k: int| 0 <= k < module_len(t) implies is_ident_char(
            #[trigger] t.subrange(0, module_len(t) as int)[k],
        ) || t.subrange(0, module_len(t) as int)[k] == '.' by {
            if k > 0 {
                assert(t.skip(1)[k - 1] == t[k]);
            }
        }
    }
    let d = dots_len(t);
    lemma_dots_run(t);
    let u = t.skip(d as int);
    if u.len() > 0 {
        lemma_module_dotted(u.skip(1));
        lemma_module_bound(u);
    }
    let r = relative_module_len(t);
    assert forall|k: int| 0 <= k < r implies is_ident_char(#[trigger] t.subrange(0, r as int)[k])
        || t.subrange(0, r as int)[k] == '.' by {
        if k >= d {
            let j = k - d;
            assert(u[j] == t[k]);
            if j > 0 {
                assert(u.skip(1)[j - 1] == u[j]);
            }
        }
    }
}

proof fn lemma_dots_run(t: Seq<char>)
    ensures
        dots_len(t) <= t.len(),
        forall|k: int| 0 <= k < dots_len(t) ==> #[trigger] t[k] == '.',
    decreases t.len(),
{
    if t.len() > 0 && t[0] == '.' {
        lemma_dots_run(t.skip(1));
        assert forall|k: int| 0 <= k < dots_len(t) implies #[trigger] t[k] == '.' by {
            if k > 0 {
                assert(t.skip(1)[k - 1] == t[k]);
            }
        }
    }
}

/// Every name of a list of items is a non-empty prefix of identifier
/// characters and dots; with `Names` or `Parenthesized` it has no dot.
proof fn lemma_items_names(form: ListForm, t: Seq<char>)
    ensures
        items(form, t) matches Some((_, names)) ==> forall|k: int|
            0 <= k < names.len() ==> (#[trigger] names[k]).len() > 0 && dotted(names[k]) && (
            form != ListForm::Modules ==> forall|j: int|
                0 <= j < names[k].len() ==> is_ident_char(#[trigger] names[k][j])),
        more_items(form, t).1.len() > 0 ==> forall|k: int|
            0 <= k < more_items(form, t).1.len() ==> (#[trigger] more_items(form, t).1[k]).len()
                > 0 && dotted(more_items(form, t).1[k]) && (form != ListForm::Modules ==> forall|
                j: int,
            |
                0 <= j < more_items(form, t).1[k].len() ==> is_ident_char(
                    #[trigger] more_items(form, t).1[k][j],
                )),
    decreases t.len(),
{
    reveal_with_fuel(items, 1);
    reveal_with_fuel(more_items, 1);
    lemma_item_bound(form, t);
    lemma_separator_bound(form, t);
    lemma_relative_module_dotted(t);
    lemma_ident_dotted(t);
    let e = item_len(form, t);
    if e > 0 {
        lemma_items_names(form, t.skip(e as int));
    }
    let o = separator_len(form, t);
    if o > 0 {
        lemma_items_names(form, t.skip(o as int));
    }
}


proof fn lemma_dotted_name(n: Seq<char>)
    requires
        n.len() > 0,
        dotted(n),
    ensures
        well_formed_name(n),
{
}

proof fn lemma_canonical_well_formed(base: Seq<char>, name: Seq<char>)
    requires
        base.len() > 0,
        dotted(base),
        name.len() > 0,
        name == seq!['*'] || dotted(name),
    ensures
        well_formed_name(canonical_name(base, name)),
{
    let c = canonical_name(base, name);
    assert forall|k: int| 0 <= k < c.len() implies is_ident_char(#[trigger] c[k]) || c[k] == '.'
        || (c[k] == '*' && k == c.len() - 1) by {
        if k < base.len() {
            assert(c[k] == base[k]);
        } else if base.last() == '.' {
            assert(c[k] == name[k - base.len()]);
        } else if k > base.len() {
            assert(c[k] == name[k - base.len() - 1]);
        }
    }
}

proof fn lemma_statement_names(t: Seq<char>)
    ensures
        statement(t) matches Some((_, names)) ==> forall|k: int|
            0 <= k < names.len() ==> well_formed_name(#[trigger] names[k]),
{
    reveal_strlit("import");
    if t.len() >= 6 {
        lemma_hspace_bound(t.skip(6));
        let a = 6 + hspace_len(t.skip(6));
        lemma_items_names(ListForm::Modules, t.skip(a as int));
    }
    lemma_from_head_bound(t);
    if let Some((a, b, d)) = from_head(t) {
        let base = t.subrange(a as int, b as int);
        lemma_relative_module_dotted(t.skip(a as int));
        assert(base =~= t.skip(a as int).subrange(0, relative_module_len(t.skip(a as int)) as int));
        lemma_items_names(ListForm::Names, t.skip(d as int));
        if let Some((_, names)) = items(ListForm::Names, t.skip(d as int)) {
            let qn = qualified(base, names);
            assert forall|k: int| 0 <= k < qn.len() implies well_formed_name(#[trigger] qn[k]) by {
                lemma_canonical_well_formed(base, names[k]);
            }
        }
        if d < t.len() {
            crate::lexer::lemma_filler_bound(t.skip((d + 1) as int));
            let e = d + 1 + crate::lexer::filler_len(t.skip((d + 1) as int));
            lemma_items_names(ListForm::Parenthesized, t.skip(e as int));
            if let Some((_, names)) = items(ListForm::Parenthesized, t.skip(e as int)) {
                let qn = qualified(base, names);
                assert forall|k: int| 0 <= k < qn.len() implies well_formed_name(#[trigger] qn[k]) by {
                    lemma_canonical_well_formed(base, names[k]);
                }
            }
            lemma_canonical_well_formed(base, seq!['*']);
        }
    }
    if let Some((_, names)) = statement(t) {
        if simple_import(t) is Some {
            assert forall|k: int| 0 <= k < names.len() implies well_formed_name(#[trigger] names[k]) by {
                lemma_dotted_name(names[k]);
            }
        }
    }
}

proof fn lemma_statement_list_names(t: Seq<char>, tc: bool)
    ensures
        statement_list(t, tc) matches Some((_, recs)) ==> forall|i: int|
            0 <= i < recs.len() ==> well_formed_name((#[trigger] recs[i]).name),
    decreases t.len(),
{
    lemma_statement_list_step(t, 0, t.len() as int, tc);
    assert(t.subrange(0, t.len() as int) =~= t);
    if let Some((n, names)) = statement(t) {
        lemma_statement_bound(t);
        lemma_statement_names(t);
        let first = statement_records(t, n, names, tc);
        let u = t.skip(n as int);
        lemma_more_statements_step(t, n as int, t.len() as int, tc);
        let a = hspace_len(u);
        lemma_hspace_bound(u);
        if a < u.len() && u[a as int] == ';' {
            lemma_hspace_bound(u.skip((a + 1) as int));
            let o = a + 1 + hspace_len(u.skip((a + 1) as int));
            lemma_statement_list_names(u.skip(o as int), tc);
        }
        let more = more_statements(u, tc);
        let all = first + shift(more.1, n);
        assert forall|i: int| 0 <= i < all.len() implies well_formed_name((#[trigger] all[i]).name) by {
            if i >= first.len() {
                assert(all[i] == shift(more.1, n)[i - first.len()]);
            } else {
                assert(first[i].name == names[i]);
            }
        }
    }
}

proof fn lemma_block_names(t: Seq<char>, tc: bool)
    ensures
        forall|i: int|
            0 <= i < block_records(t, tc).len() ==> well_formed_name(
                (#[trigger] block_records(t, tc)[i]).name,
            ),
        forall|i: int|
            0 <= i < guarded_records(t).len() ==> well_formed_name(
                (#[trigger] guarded_records(t)[i]).name,
            ),
    decreases t.len(),
{
    lemma_guarded_records_unfold(t);
    lemma_guarded_bounds(t);
    lemma_step_bounds(t, tc);
    if guarded_len(t) > 0 {
        let a = after_guard(t);
        let u = t.skip(a as int);
        lemma_statement_list_names(u, true);
        if statement_list(u, true) is None {
            lemma_guarded_block_bounds(u);
            let sub = u.subrange(guarded_block_start(u) as int, guarded_block_len(u) as int);
            lemma_block_names(sub, true);
        }
        let g = guarded_records(t);
        assert forall|i: int| 0 <= i < g.len() implies well_formed_name((#[trigger] g[i]).name) by {
            if let Some((_, recs)) = statement_list(u, true) {
                assert(g[i].name == recs[i].name);
            } else {
                let sub = u.subrange(guarded_block_start(u) as int, guarded_block_len(u) as int);
                assert(g[i].name == block_records(sub, true)[i].name);
            }
        }
    }
    lemma_block_records_unfold(t, tc);
    if t.len() > 0 {
        lemma_step_records_unfold(t, tc);
        lemma_statement_list_names(t, tc);
        let n = step_len(t, tc);
        lemma_block_names(t.skip(n as int), tc);
        let x = step_records(t, tc);
        let y = shift(block_records(t.skip(n as int), tc), n);
        let b = block_records(t, tc);
        assert forall|i: int| 0 <= i < b.len() implies well_formed_name((#[trigger] b[i]).name) by {
            if i < x.len() {
                assert(b[i] == x[i]);
                if guarded_len(t) == 0 {
                    if let Some((_, recs)) = statement_list(t, tc) {
                        if !(hspace_len(t) > 0 || line_ending_len(t) > 0 || triple_quoted_len(t)
                            > 0 || comment_len(t) > 0) {
                            assert(x[i] == recs[i]);
                        }
                    }
                }
            } else {
                assert(b[i] == y[i - x.len()]);
                assert(y[i - x.len()].name == block_records(t.skip(n as int), tc)[i
                    - x.len()].name);
            }
        }
    }
}

/// Every reported name is non-empty and made of identifier characters and
/// dots, with at most a final `*`.
pub proof fn law_names_well_formed(s: Seq<char>)
    ensures
        forall|i: int|
            0 <= i < extracted(s).len() ==> well_formed_name((#[trigger] extracted(s)[i]).name),
{
    lemma_block_names(s, false);
}

} // verus!
