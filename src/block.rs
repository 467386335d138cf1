//! The block driver: `if TYPE_CHECKING:` guards, indented blocks, and the
//! loop that walks a block one construct at a time.
use vstd::prelude::*;
use crate::window::window;
use crate::lexer::{
    comment_len, hspace_len, line_ending_len, rest_of_line_len, spaces_len, starts_with,
    triple_quoted_len, lemma_comment_bound, lemma_hspace_bound, lemma_rest_of_line_bound,
    lemma_spaces_bound, lemma_triple_quoted_bound, tag, parse_space0, parse_spaces,
    parse_line_ending, parse_not_line_ending, parse_comment, parse_multiline_comment,
};
use crate::records::{Rec, shift, appended, line_table, lemma_appended_concat, lemma_shift_shift};
use crate::statements::{
    statement_list, lemma_statement_list_bound, parse_import_statement_list,
};
use crate::Import;

verus! {

broadcast use crate::window::lemma_window_skip;

/// `if TYPE_CHECKING:` or `if typing.TYPE_CHECKING:`.
pub open spec fn guard_len(t: Seq<char>) -> nat {
    if !starts_with(t, "if"@) {
        0
    } else {
        let a = 2 + hspace_len(t.skip(2));
        let b: nat = if starts_with(t.skip(a as int), "TYPE_CHECKING"@) {
            a + 13
        } else if starts_with(t.skip(a as int), "typing.TYPE_CHECKING"@) {
            a + 20
        } else {
            a
        };
        if a == 2 || b == a {
            0
        } else {
            let c = b + hspace_len(t.skip(b as int));
            if c < t.len() && t[c as int] == ':' {
                c + 1
            } else {
                0
            }
        }
    }
}

/// Lines holding nothing but spaces and tabs.
pub open spec fn blank_lines_len(t: Seq<char>) -> nat
    decreases t.len(),
{
    let w = spaces_len(t);
    let e = line_ending_len(t.skip(w as int));
    if e > 0 {
        proof {
            lemma_spaces_bound(t);
        }
        w + e + blank_lines_len(t.skip((w + e) as int))
    } else {
        0
    }
}

/// Lines that are blank or start with the indentation `ind`.
pub open spec fn block_lines_len(t: Seq<char>, ind: Seq<char>) -> nat
    decreases t.len(),
{
    let w = spaces_len(t);
    let e = line_ending_len(t.skip(w as int));
    if e > 0 {
        proof {
            lemma_spaces_bound(t);
        }
        w + e + block_lines_len(t.skip((w + e) as int), ind)
    } else if ind.len() > 0 && starts_with(t, ind) {
        let r = ind.len() + rest_of_line_len(t.skip(ind.len() as int));
        let f = r + line_ending_len(t.skip(r as int));
        proof {
            lemma_rest_of_line_bound(t.skip(ind.len() as int));
        }
        f + block_lines_len(t.skip(f as int), ind)
    } else {
        0
    }
}

/// An indented block: blank lines, then a line whose leading blanks set
/// the indentation, then every following line that is blank or starts
/// with that indentation.
pub open spec fn indented_block_len(t: Seq<char>) -> nat {
    let a = blank_lines_len(t);
    let w = spaces_len(t.skip(a as int));
    if w == 0 {
        0
    } else {
        let r = a + w + rest_of_line_len(t.skip((a + w) as int));
        let f = r + line_ending_len(t.skip(r as int));
        f + block_lines_len(t.skip(f as int), t.subrange(a as int, (a + w) as int))
    }
}

/// After a guard and its blanks: an optional comment, a line break and an
/// indented block.
pub open spec fn guarded_block_len(u: Seq<char>) -> nat {
    let b = comment_len(u);
    let e = line_ending_len(u.skip(b as int));
    let k = indented_block_len(u.skip((b + e) as int));
    if e == 0 || k == 0 {
        0
    } else {
        b + e + k
    }
}

/// Where the indented block starts, after a guard and its blanks.
pub open spec fn guarded_block_start(u: Seq<char>) -> nat {
    let b = comment_len(u);
    b + line_ending_len(u.skip(b as int))
}

/// Where the statements or the comment and line break after a guard start.
pub open spec fn after_guard(t: Seq<char>) -> nat {
    let h = guard_len(t);
    h + hspace_len(t.skip(h as int))
}

/// The whole guarded construct: the guard followed either by statements on
/// the same line, or by a line break and an indented block.
pub open spec fn guarded_len(t: Seq<char>) -> nat {
    let a = after_guard(t);
    if guard_len(t) == 0 {
        0
    } else {
        match statement_list(t.skip(a as int), true) {
            Some((n, _)) => {
                let c = a + n + hspace_len(t.skip((a + n) as int));
                c + comment_len(t.skip(c as int))
            },
            None => if guarded_block_len(t.skip(a as int)) == 0 {
                0
            } else {
                a + guarded_block_len(t.skip(a as int))
            },
        }
    }
}

/// The length of the construct the driver consumes at the start of `t`.
pub open spec fn step_len(t: Seq<char>, tc: bool) -> nat {
    if guarded_len(t) > 0 {
        guarded_len(t)
    } else if hspace_len(t) > 0 {
        hspace_len(t)
    } else if line_ending_len(t) > 0 {
        line_ending_len(t)
    } else if triple_quoted_len(t) > 0 {
        triple_quoted_len(t)
    } else if comment_len(t) > 0 {
        comment_len(t)
    } else {
        match statement_list(t, tc) {
            Some((n, _)) => n,
            None => rest_of_line_len(t),
        }
    }
}

/// The records of a guarded construct; they are all flagged.
#[verifier::opaque]
pub open spec fn guarded_records(t: Seq<char>) -> Seq<Rec>
    decreases t.len(), 0nat,
{
    let a = after_guard(t);
    if guard_len(t) == 0 {
        seq![]
    } else {
        match statement_list(t.skip(a as int), true) {
            Some((_, recs)) => shift(recs, a),
            None => {
                let u = t.skip(a as int);
                if guarded_block_len(u) == 0 {
                    seq![]
                } else {
                    proof {
                        lemma_guarded_bounds(t);
                    }
                    shift(
                        block_records(
                            u.subrange(guarded_block_start(u) as int, guarded_block_len(u) as int),
                            true,
                        ),
                        a + guarded_block_start(u),
                    )
                }
            },
        }
    }
}

/// The records of the construct the driver consumes at the start of `t`.
#[verifier::opaque]
pub open spec fn step_records(t: Seq<char>, tc: bool) -> Seq<Rec>
    decreases t.len(), 1nat,
{
    if guarded_len(t) > 0 {
        guarded_records(t)
    } else if hspace_len(t) > 0 || line_ending_len(t) > 0 || triple_quoted_len(t) > 0
        || comment_len(t) > 0 {
        seq![]
    } else {
        match statement_list(t, tc) {
            Some((_, recs)) => recs,
            None => seq![],
        }
    }
}

/// The records of a whole block, in source order; `tc` flags statements
/// that are not themselves under a guard.
#[verifier::opaque]
pub open spec fn block_records(t: Seq<char>, tc: bool) -> Seq<Rec>
    decreases t.len(), 2nat,
{
    if t.len() == 0 {
        seq![]
    } else {
        let n = step_len(t, tc);
        proof {
            lemma_step_bounds(t, tc);
        }
        step_records(t, tc) + shift(block_records(t.skip(n as int), tc), n)
    }
}

pub proof fn lemma_guard_bound(t: Seq<char>)
    ensures
        guard_len(t) <= t.len(),
        guard_len(t) > 0 ==> guard_len(t) >= 3,
{
    reveal_strlit("if");
    reveal_strlit("TYPE_CHECKING");
    reveal_strlit("typing.TYPE_CHECKING");
    if t.len() >= 2 {
        lemma_hspace_bound(t.skip(2));
        let a = 2 + hspace_len(t.skip(2));
        if a + 13 <= t.len() {
            lemma_hspace_bound(t.skip((a + 13) as int));
        }
        if a + 20 <= t.len() {
            lemma_hspace_bound(t.skip((a + 20) as int));
        }
    }
}

pub proof fn lemma_blank_lines_bound(t: Seq<char>)
    ensures
        blank_lines_len(t) <= t.len(),
    decreases t.len(),
{
    lemma_spaces_bound(t);
    let w = spaces_len(t);
    if line_ending_len(t.skip(w as int)) > 0 {
        lemma_blank_lines_bound(t.skip((w + line_ending_len(t.skip(w as int))) as int));
    }
}

pub proof fn lemma_block_lines_bound(t: Seq<char>, ind: Seq<char>)
    ensures
        block_lines_len(t, ind) <= t.len(),
    decreases t.len(),
{
    lemma_spaces_bound(t);
    let w = spaces_len(t);
    let e = line_ending_len(t.skip(w as int));
    if e > 0 {
        lemma_block_lines_bound(t.skip((w + e) as int), ind);
    } else if ind.len() > 0 && starts_with(t, ind) {
        lemma_rest_of_line_bound(t.skip(ind.len() as int));
        let r = ind.len() + rest_of_line_len(t.skip(ind.len() as int));
        lemma_block_lines_bound(t.skip((r + line_ending_len(t.skip(r as int))) as int), ind);
    }
}

pub proof fn lemma_indented_block_bound(t: Seq<char>)
    ensures
        indented_block_len(t) <= t.len(),
{
    lemma_blank_lines_bound(t);
    let a = blank_lines_len(t);
    lemma_spaces_bound(t.skip(a as int));
    let w = spaces_len(t.skip(a as int));
    if w > 0 {
        lemma_rest_of_line_bound(t.skip((a + w) as int));
        let r = a + w + rest_of_line_len(t.skip((a + w) as int));
        let f = r + line_ending_len(t.skip(r as int));
        lemma_block_lines_bound(t.skip(f as int), t.subrange(a as int, (a + w) as int));
    }
}

pub proof fn lemma_guarded_block_bounds(u: Seq<char>)
    ensures
        guarded_block_len(u) <= u.len(),
        guarded_block_len(u) > 0 ==> 0 < guarded_block_start(u) < guarded_block_len(u),
{
    lemma_comment_bound(u);
    let b = comment_len(u);
    let e = line_ending_len(u.skip(b as int));
    if b + e <= u.len() {
        lemma_indented_block_bound(u.skip((b + e) as int));
    }
}

pub proof fn lemma_guarded_bounds(t: Seq<char>)
    ensures
        guarded_len(t) <= t.len(),
        guarded_len(t) > 0 ==> guard_len(t) > 0,
        guard_len(t) > 0 ==> 3 <= after_guard(t) <= t.len(),
        guard_len(t) > 0 ==> guarded_block_len(t.skip(after_guard(t) as int)) <= t.len()
            - after_guard(t),
{
    lemma_guard_bound(t);
    let h = guard_len(t);
    if h > 0 {
        lemma_hspace_bound(t.skip(h as int));
        let a = after_guard(t);
        lemma_statement_list_bound(t.skip(a as int), true);
        lemma_guarded_block_bounds(t.skip(a as int));
        if let Some((n, _)) = statement_list(t.skip(a as int), true) {
            lemma_hspace_bound(t.skip((a + n) as int));
            let c = a + n + hspace_len(t.skip((a + n) as int));
            lemma_comment_bound(t.skip(c as int));
        }
    }
}

pub proof fn lemma_step_bounds(t: Seq<char>, tc: bool)
    ensures
        step_len(t, tc) <= t.len(),
        t.len() > 0 ==> step_len(t, tc) > 0,
{
    lemma_guarded_bounds(t);
    lemma_hspace_bound(t);
    lemma_triple_quoted_bound(t);
    lemma_comment_bound(t);
    lemma_statement_list_bound(t, tc);
    lemma_rest_of_line_bound(t);
}


pub proof fn lemma_guarded_records_unfold(t: Seq<char>)
    ensures
        guarded_len(t) == 0 ==> guarded_records(t) == Seq::<Rec>::empty(),
        ({
            let a = after_guard(t);
            let u = t.skip(a as int);
            guarded_len(t) > 0 ==> match statement_list(u, true) {
                Some((_, recs)) => guarded_records(t) == shift(recs, a),
                None => guarded_records(t) == shift(
                    block_records(
                        u.subrange(guarded_block_start(u) as int, guarded_block_len(u) as int),
                        true,
                    ),
                    a + guarded_block_start(u),
                ),
            }
        }),
{
    reveal_with_fuel(guarded_records, 1);
    reveal_with_fuel(step_records, 1);
    reveal_with_fuel(block_records, 1);
    lemma_guarded_bounds(t);
    if guard_len(t) > 0 {
        lemma_statement_list_bound(t.skip(after_guard(t) as int), true);
    }
}

pub proof fn lemma_step_records_unfold(t: Seq<char>, tc: bool)
    ensures
        step_records(t, tc) == if guarded_len(t) > 0 {
            guarded_records(t)
        } else if hspace_len(t) > 0 || line_ending_len(t) > 0 || triple_quoted_len(t) > 0
            || comment_len(t) > 0 {
            Seq::<Rec>::empty()
        } else {
            match statement_list(t, tc) {
                Some((_, recs)) => recs,
                None => Seq::<Rec>::empty(),
            }
        },
{
    reveal_with_fuel(guarded_records, 1);
    reveal_with_fuel(step_records, 1);
    reveal_with_fuel(block_records, 1);
}

pub proof fn lemma_block_records_unfold(t: Seq<char>, tc: bool)
    ensures
        t.len() == 0 ==> block_records(t, tc) == Seq::<Rec>::empty(),
        t.len() > 0 ==> block_records(t, tc) == step_records(t, tc) + shift(
            block_records(t.skip(step_len(t, tc) as int), tc),
            step_len(t, tc),
        ),
{
    reveal_with_fuel(guarded_records, 1);
    reveal_with_fuel(step_records, 1);
    reveal_with_fuel(block_records, 1);
    lemma_step_bounds(t, tc);
}

// Executable driver over `v[i..lim]`.

pub fn parse_guard(v: &Vec<char>, i: usize, lim: usize) -> (r: usize)
    requires
        i <= lim <= v@.len(),
    ensures
        r == i + guard_len(window(v@, i as int, lim as int)),
        r <= lim,
{
    proof {
        reveal_strlit("if");
        reveal_strlit("TYPE_CHECKING");
        reveal_strlit("typing.TYPE_CHECKING");
        lemma_guard_bound(window(v@, i as int, lim as int));
    }
    let ghost t = window(v@, i as int, lim as int);
    if !tag(v, i, lim, "if") {
        return i;
    }
    let a = parse_space0(v, i + 2, lim);
    if a == i + 2 {
        return i;
    }
    let b = if tag(v, a, lim, "TYPE_CHECKING") {
        a + 13
    } else if tag(v, a, lim, "typing.TYPE_CHECKING") {
        a + 20
    } else {
        return i;
    };
    let c = parse_space0(v, b, lim);
    if c < lim && v[c] == ':' {
        assert(t[c - i] == v@[c as int]);
        c + 1
    } else {
        assert(c < lim ==> t[c - i] == v@[c as int]);
        i
    }
}

/// Whether `v[j..lim]` starts with `v[a..b]`.
pub fn starts_with_range(v: &Vec<char>, j: usize, lim: usize, a: usize, b: usize) -> (r: bool)
    requires
        j <= lim <= v@.len(),
        a <= b <= v@.len(),
    ensures
        r == starts_with(window(v@, j as int, lim as int), v@.subrange(a as int, b as int)),
{
    let n = b - a;
    if n > lim - j {
        return false;
    }
    let ghost w = window(v@, j as int, lim as int).subrange(0, n as int);
    let ghost ind = v@.subrange(a as int, b as int);
    let mut k: usize = 0;
    while k < n
        invariant
            w == window(v@, j as int, lim as int).subrange(0, n as int),
            ind == v@.subrange(a as int, b as int),
            forall|m: int| 0 <= m < k ==> #[trigger] w[m] == ind[m],
            j <= lim <= v@.len(),
            a <= b <= v@.len(),
            n == b - a,
            n <= lim - j,
            k <= n,
            forall|m: int| 0 <= m < k ==> #[trigger] v@[j + m] == v@[a + m],
        decreases n - k,
    {
        if v[j + k] != v[a + k] {
            assert(w[k as int] != ind[k as int]);
            return false;
        }
        assert(w[k as int] == ind[k as int]);
        k = k + 1;
    }
    assert(window(v@, j as int, lim as int).subrange(0, n as int) =~= v@.subrange(
        a as int,
        b as int,
    ));
    true
}

pub fn parse_blank_lines(v: &Vec<char>, i: usize, lim: usize) -> (r: usize)
    requires
        i <= lim <= v@.len(),
    ensures
        r == i + blank_lines_len(window(v@, i as int, lim as int)),
        r <= lim,
{
    let mut j = i;
    loop
        invariant
            i <= j <= lim <= v@.len(),
            blank_lines_len(window(v@, i as int, lim as int)) == (j - i) + blank_lines_len(
                window(v@, j as int, lim as int),
            ),
        decreases lim - j,
    {
        let w = parse_spaces(v, j, lim);
        let e = parse_line_ending(v, w, lim);
        if e == w {
            return j;
        }
        j = e;
    }
}

/// Lines that are blank or start with the indentation `v[a..b]`.
pub fn parse_block_lines(v: &Vec<char>, i: usize, lim: usize, a: usize, b: usize) -> (r: usize)
    requires
        i <= lim <= v@.len(),
        a < b <= v@.len(),
    ensures
        r == i + block_lines_len(window(v@, i as int, lim as int), v@.subrange(a as int, b as int)),
        r <= lim,
{
    let ghost ind = v@.subrange(a as int, b as int);
    let mut j = i;
    loop
        invariant
            i <= j <= lim <= v@.len(),
            a < b <= v@.len(),
            ind == v@.subrange(a as int, b as int),
            block_lines_len(window(v@, i as int, lim as int), ind) == (j - i) + block_lines_len(
                window(v@, j as int, lim as int),
                ind,
            ),
        decreases lim - j,
    {
        let w = parse_spaces(v, j, lim);
        let e = parse_line_ending(v, w, lim);
        if e > w {
            j = e;
        } else if starts_with_range(v, j, lim, a, b) {
            let r = parse_not_line_ending(v, j + (b - a), lim);
            j = parse_line_ending(v, r, lim);
        } else {
            return j;
        }
    }
}

pub fn parse_indented_block(v: &Vec<char>, i: usize, lim: usize) -> (r: usize)
    requires
        i <= lim <= v@.len(),
    ensures
        r == i + indented_block_len(window(v@, i as int, lim as int)),
        r <= lim,
{
    let a = parse_blank_lines(v, i, lim);
    let w = parse_spaces(v, a, lim);
    if w == a {
        return i;
    }
    let r = parse_not_line_ending(v, w, lim);
    let f = parse_line_ending(v, r, lim);
    assert(window(v@, i as int, lim as int).subrange(a - i, w - i) =~= v@.subrange(
        a as int,
        w as int,
    ));
    parse_block_lines(v, f, lim, a, w)
}

/// The block form after a guard, at `a`: an optional comment, a line break
/// and an indented block, walked with every import flagged.
pub fn parse_guarded_block(
    v: &Vec<char>,
    lines: &Vec<u32>,
    a: usize,
    lim: usize,
    out: &mut Vec<Import>,
) -> (r: usize)
    requires
        a <= lim <= v@.len(),
        line_table(lines@, v@),
    ensures
        ({
            let u = window(v@, a as int, lim as int);
            &&& r == a + guarded_block_len(u)
            &&& guarded_block_len(u) == 0 ==> final(out)@ == old(out)@
            &&& guarded_block_len(u) > 0 ==> appended(
                final(out)@,
                old(out)@,
                v@,
                a + guarded_block_start(u),
                block_records(
                    u.subrange(guarded_block_start(u) as int, guarded_block_len(u) as int),
                    true,
                ),
            )
        }),
    decreases lim - a, 0nat,
{
    let ghost u = window(v@, a as int, lim as int);
    let b = parse_comment(v, a, lim);
    let e = parse_line_ending(v, b, lim);
    if e == b {
        return a;
    }
    let k = parse_indented_block(v, e, lim);
    if k == e {
        return a;
    }
    assert(u.subrange(e - a, k - a) =~= window(v@, e as int, k as int));
    parse_block(v, lines, e, k, true, out);
    k
}

/// An `if TYPE_CHECKING:` construct at `i`; appends its imports, all
/// flagged, and returns where it ends (`i` when there is none).
#[verifier::rlimit(50)]
pub fn parse_if_typechecking(
    v: &Vec<char>,
    lines: &Vec<u32>,
    i: usize,
    lim: usize,
    out: &mut Vec<Import>,
) -> (r: usize)
    requires
        i <= lim <= v@.len(),
        line_table(lines@, v@),
    ensures
        r == i + guarded_len(window(v@, i as int, lim as int)),
        r <= lim,
        appended(final(out)@, old(out)@, v@, i as int, guarded_records(window(v@, i as int, lim as int))),
    decreases lim - i, 1nat,
{
    let ghost t = window(v@, i as int, lim as int);
    proof {
        lemma_guarded_records_unfold(t);
        lemma_guarded_bounds(t);
    }
    let h = parse_guard(v, i, lim);
    if h == i {
        assert(out@ =~= old(out)@);
        return i;
    }
    let a = parse_space0(v, h, lim);
    proof {
        lemma_statement_list_bound(window(v@, a as int, lim as int), true);
    }
    let ghost before = out@;
    match parse_import_statement_list(v, lines, a, lim, true, out) {
        Some(n) => {
            proof {
                let recs = statement_list(window(v@, a as int, lim as int), true).unwrap().1;
                lemma_appended_concat(out@, before, before, v@, i as int, Seq::<Rec>::empty(), (a - i) as nat, recs);
                assert(Seq::<Rec>::empty() + shift(recs, (a - i) as nat) =~= shift(recs, (a - i) as nat));
            }
            let c = parse_space0(v, n, lim);
            parse_comment(v, c, lim)
        },
        None => {
            let k = parse_guarded_block(v, lines, a, lim, out);
            if k == a {
                assert(out@ =~= old(out)@);
                return i;
            }
            proof {
                let u = window(v@, a as int, lim as int);
                let recs = block_records(
                    u.subrange(guarded_block_start(u) as int, guarded_block_len(u) as int),
                    true,
                );
                lemma_appended_concat(out@, before, before, v@, i as int, Seq::<Rec>::empty(), (a - i + guarded_block_start(u)) as nat, recs);
                assert(Seq::<Rec>::empty() + shift(recs, (a - i + guarded_block_start(u)) as nat) =~= shift(recs, (a - i + guarded_block_start(u)) as nat));
            }
            k
        },
    }
}

/// The construct the driver consumes at `i`; appends its imports.
pub fn parse_step(
    v: &Vec<char>,
    lines: &Vec<u32>,
    i: usize,
    lim: usize,
    tc: bool,
    out: &mut Vec<Import>,
) -> (r: usize)
    requires
        i < lim <= v@.len(),
        line_table(lines@, v@),
    ensures
        r == i + step_len(window(v@, i as int, lim as int), tc),
        appended(final(out)@, old(out)@, v@, i as int, step_records(window(v@, i as int, lim as int), tc)),
    decreases lim - i, 2nat,
{
    let ghost t = window(v@, i as int, lim as int);
    proof {
        lemma_statement_list_bound(t, tc);
        lemma_step_records_unfold(t, tc);
        lemma_guarded_records_unfold(t);
    }
    let g = parse_if_typechecking(v, lines, i, lim, out);
    if g > i {
        return g;
    }
    assert(out@ =~= old(out)@);
    let w = parse_space0(v, i, lim);
    if w > i {
        return w;
    }
    let le = parse_line_ending(v, i, lim);
    if le > i {
        return le;
    }
    let q = parse_multiline_comment(v, i, lim);
    if q > i {
        return q;
    }
    let c = parse_comment(v, i, lim);
    if c > i {
        return c;
    }
    match parse_import_statement_list(v, lines, i, lim, tc, out) {
        Some(n) => n,
        None => parse_not_line_ending(v, i, lim),
    }
}

/// Walks `v[i0..lim]` construct by construct and appends the imports found.
#[verifier::rlimit(50)]
pub fn parse_block(
    v: &Vec<char>,
    lines: &Vec<u32>,
    i0: usize,
    lim: usize,
    tc: bool,
    out: &mut Vec<Import>,
)
    requires
        i0 <= lim <= v@.len(),
        line_table(lines@, v@),
    ensures
        appended(final(out)@, old(out)@, v@, i0 as int, block_records(window(v@, i0 as int, lim as int), tc)),
    decreases lim - i0, 3nat,
{
    let mut i = i0;
    let ghost mut done: Seq<Rec> = Seq::empty();
    proof {
        crate::records::lemma_shift_zero(block_records(window(v@, i0 as int, lim as int), tc));
        assert(done + block_records(window(v@, i0 as int, lim as int), tc) =~= block_records(window(v@, i0 as int, lim as int), tc));
    }
    while i < lim
        invariant
            i0 <= i <= lim <= v@.len(),
            line_table(lines@, v@),
            appended(out@, old(out)@, v@, i0 as int, done),
            block_records(window(v@, i0 as int, lim as int), tc) == done + shift(
                block_records(window(v@, i as int, lim as int), tc),
                (i - i0) as nat,
            ),
        decreases lim - i,
    {
        let ghost t = window(v@, i as int, lim as int);
        proof {
            lemma_block_records_unfold(t, tc);
            lemma_step_bounds(t, tc);
        }
        let ghost mid = out@;
        let n = parse_step(v, lines, i, lim, tc, out);
        proof {
            let r1 = step_records(t, tc);
            let rest = block_records(window(v@, n as int, lim as int), tc);
            lemma_appended_concat(out@, mid, old(out)@, v@, i0 as int, done, (i - i0) as nat, r1);
            crate::records::lemma_shift_concat(r1, shift(rest, (n - i) as nat), (i - i0) as nat);
            lemma_shift_shift(rest, (n - i) as nat, (i - i0) as nat);
            assert(done + (shift(r1, (i - i0) as nat) + shift(rest, (n - i0) as nat)) =~= (done + shift(r1, (i - i0) as nat)) + shift(rest, (n - i0) as nat));
            done = done + shift(r1, (i - i0) as nat);
        }
        i = n;
    }
    proof {
        lemma_block_records_unfold(window(v@, lim as int, lim as int), tc);
        assert(shift(Seq::<Rec>::empty(), (lim - i0) as nat) =~= Seq::<Rec>::empty());
        assert(done + Seq::<Rec>::empty() =~= done);
    }
}

} // verus!
