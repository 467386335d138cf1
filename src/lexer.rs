//! Lexical primitives: identifiers, dotted modules, horizontal whitespace,
//! line terminators, comments and triple-quoted literals.
//!
//! Every recogniser is described by a spec function over the remaining input
//! `t` that gives the number of characters it consumes; zero means that it
//! does not match (none of the recognisers below matches the empty text).
//! The executable versions work on a window `v[i..lim]` of the input and
//! return the position where the match ends.
use vstd::prelude::*;
use crate::window::window;

verus! {

pub open spec fn starts_with(t: Seq<char>, p: Seq<char>) -> bool {
    p.len() <= t.len() && t.subrange(0, p.len() as int) == p
}

pub open spec fn is_space(c: char) -> bool {
    c == ' ' || c == '\t'
}

pub open spec fn is_multispace(c: char) -> bool {
    c == ' ' || c == '\t' || c == '\r' || c == '\n'
}

pub open spec fn is_ident_char(c: char) -> bool {
    ('a' <= c && c <= 'z') || ('A' <= c && c <= 'Z') || ('0' <= c && c <= '9') || c == '_'
}

/// Spaces and tabs only.
pub open spec fn spaces_len(t: Seq<char>) -> nat
    decreases t.len(),
{
    if t.len() > 0 && is_space(t[0]) {
        1 + spaces_len(t.skip(1))
    } else {
        0
    }
}

/// Horizontal whitespace: spaces, tabs and backslash-newline continuations.
pub open spec fn hspace_len(t: Seq<char>) -> nat
    decreases t.len(),
{
    if t.len() > 0 && is_space(t[0]) {
        1 + hspace_len(t.skip(1))
    } else if t.len() > 1 && t[0] == '\\' && t[1] == '\n' {
        2 + hspace_len(t.skip(2))
    } else {
        0
    }
}

/// Spaces, tabs, carriage returns and newlines.
pub open spec fn multispace_len(t: Seq<char>) -> nat
    decreases t.len(),
{
    if t.len() > 0 && is_multispace(t[0]) {
        1 + multispace_len(t.skip(1))
    } else {
        0
    }
}

pub open spec fn ident_len(t: Seq<char>) -> nat
    decreases t.len(),
{
    if t.len() > 0 && is_ident_char(t[0]) {
        1 + ident_len(t.skip(1))
    } else {
        0
    }
}

pub open spec fn dots_len(t: Seq<char>) -> nat
    decreases t.len(),
{
    if t.len() > 0 && t[0] == '.' {
        1 + dots_len(t.skip(1))
    } else {
        0
    }
}

/// A line terminator: `\n` or `\r\n`.
pub open spec fn line_ending_len(t: Seq<char>) -> nat {
    if t.len() > 0 && t[0] == '\n' {
        1
    } else if t.len() > 1 && t[0] == '\r' && t[1] == '\n' {
        2
    } else {
        0
    }
}

/// Everything up to, not including, the next line terminator (may be empty).
pub open spec fn rest_of_line_len(t: Seq<char>) -> nat
    decreases t.len(),
{
    if t.len() == 0 || line_ending_len(t) > 0 {
        0
    } else {
        1 + rest_of_line_len(t.skip(1))
    }
}

/// `#` through the end of the line.
pub open spec fn comment_len(t: Seq<char>) -> nat {
    if t.len() > 0 && t[0] == '#' {
        1 + rest_of_line_len(t.skip(1))
    } else {
        0
    }
}

/// Any mixture of whitespace, line terminators and comments (may be empty).
pub open spec fn filler_len(t: Seq<char>) -> nat
    decreases t.len(), 1nat,
{
    if t.len() > 0 && is_multispace(t[0]) {
        1 + filler_len(t.skip(1))
    } else if t.len() > 0 && t[0] == '#' {
        1 + comment_filler_len(t.skip(1))
    } else {
        0
    }
}

/// Inside a comment: up to the line terminator, then `filler_len` again.
pub open spec fn comment_filler_len(t: Seq<char>) -> nat
    decreases t.len(), 2nat,
{
    if t.len() == 0 {
        0
    } else if line_ending_len(t) > 0 {
        filler_len(t)
    } else {
        1 + comment_filler_len(t.skip(1))
    }
}

/// The part of a dotted module after its first identifier character.
pub open spec fn module_rest_len(t: Seq<char>) -> nat
    decreases t.len(),
{
    if t.len() > 0 && is_ident_char(t[0]) {
        1 + module_rest_len(t.skip(1))
    } else if t.len() > 1 && t[0] == '.' && is_ident_char(t[1]) {
        2 + module_rest_len(t.skip(2))
    } else {
        0
    }
}

/// A non-empty `.`-separated sequence of identifiers.
pub open spec fn module_len(t: Seq<char>) -> nat {
    if t.len() > 0 && is_ident_char(t[0]) {
        1 + module_rest_len(t.skip(1))
    } else {
        0
    }
}

/// Leading dots followed by a module, or one or more dots alone.
pub open spec fn relative_module_len(t: Seq<char>) -> nat {
    let d = dots_len(t);
    let m = module_len(t.skip(d as int));
    if m > 0 {
        d + m
    } else {
        d
    }
}

/// Offset of the first occurrence of `p` in `t`.
pub open spec fn find(t: Seq<char>, p: Seq<char>) -> Option<nat>
    decreases t.len(),
{
    if starts_with(t, p) {
        Some(0)
    } else if t.len() == 0 {
        None
    } else {
        match find(t.skip(1), p) {
            Some(k) => Some(k + 1),
            None => None,
        }
    }
}

pub open spec fn triple_double() -> Seq<char> {
    seq!['"', '"', '"']
}

pub open spec fn triple_single() -> Seq<char> {
    seq!['\'', '\'', '\'']
}

/// A literal opened by `q` and closed by the first `q` after it.
pub open spec fn quoted_len(t: Seq<char>, q: Seq<char>) -> nat {
    if starts_with(t, q) {
        match find(t.skip(3), q) {
            Some(k) => 6 + k,
            None => 0,
        }
    } else {
        0
    }
}

/// A `"""…"""` or `'''…'''` literal.
pub open spec fn triple_quoted_len(t: Seq<char>) -> nat {
    if starts_with(t, triple_double()) {
        quoted_len(t, triple_double())
    } else {
        quoted_len(t, triple_single())
    }
}

// Bounds: no recogniser consumes more than it is given.
pub proof fn lemma_spaces_bound(t: Seq<char>)
    ensures
        spaces_len(t) <= t.len(),
    decreases t.len(),
{
    if t.len() > 0 && is_space(t[0]) {
        lemma_spaces_bound(t.skip(1));
    }
}

pub proof fn lemma_hspace_bound(t: Seq<char>)
    ensures
        hspace_len(t) <= t.len(),
    decreases t.len(),
{
    if t.len() > 0 && is_space(t[0]) {
        lemma_hspace_bound(t.skip(1));
    } else if t.len() > 1 && t[0] == '\\' && t[1] == '\n' {
        lemma_hspace_bound(t.skip(2));
    }
}

pub proof fn lemma_multispace_bound(t: Seq<char>)
    ensures
        multispace_len(t) <= t.len(),
    decreases t.len(),
{
    if t.len() > 0 && is_multispace(t[0]) {
        lemma_multispace_bound(t.skip(1));
    }
}

pub proof fn lemma_ident_bound(t: Seq<char>)
    ensures
        ident_len(t) <= t.len(),
    decreases t.len(),
{
    if t.len() > 0 && is_ident_char(t[0]) {
        lemma_ident_bound(t.skip(1));
    }
}

pub proof fn lemma_dots_bound(t: Seq<char>)
    ensures
        dots_len(t) <= t.len(),
    decreases t.len(),
{
    if t.len() > 0 && t[0] == '.' {
        lemma_dots_bound(t.skip(1));
    }
}

pub proof fn lemma_rest_of_line_bound(t: Seq<char>)
    ensures
        rest_of_line_len(t) <= t.len(),
    decreases t.len(),
{
    if !(t.len() == 0 || line_ending_len(t) > 0) {
        lemma_rest_of_line_bound(t.skip(1));
    }
}

pub proof fn lemma_comment_bound(t: Seq<char>)
    ensures
        comment_len(t) <= t.len(),
{
    if t.len() > 0 && t[0] == '#' {
        lemma_rest_of_line_bound(t.skip(1));
    }
}

pub proof fn lemma_filler_bound(t: Seq<char>)
    ensures
        filler_len(t) <= t.len(),
        comment_filler_len(t) <= t.len(),
    decreases t.len(),
{
    if t.len() > 0 {
        lemma_filler_bound(t.skip(1));
    }
}

pub proof fn lemma_module_bound(t: Seq<char>)
    ensures
        module_rest_len(t) <= t.len(),
        module_len(t) <= t.len(),
    decreases t.len(),
{
    if t.len() > 0 && is_ident_char(t[0]) {
        lemma_module_bound(t.skip(1));
    } else if t.len() > 1 && t[0] == '.' && is_ident_char(t[1]) {
        lemma_module_bound(t.skip(2));
    }
    if t.len() > 0 {
        lemma_module_bound(t.skip(1));
    }
}

pub proof fn lemma_relative_module_bound(t: Seq<char>)
    ensures
        relative_module_len(t) <= t.len(),
{
    lemma_dots_bound(t);
    lemma_module_bound(t.skip(dots_len(t) as int));
}

pub proof fn lemma_find_bound(t: Seq<char>, p: Seq<char>)
    ensures
        find(t, p) matches Some(k) ==> k + p.len() <= t.len(),
    decreases t.len(),
{
    if !starts_with(t, p) && t.len() > 0 {
        lemma_find_bound(t.skip(1), p);
    }
}

pub proof fn lemma_triple_quoted_bound(t: Seq<char>)
    ensures
        triple_quoted_len(t) <= t.len(),
{
    lemma_find_bound(t.skip(3), triple_double());
    lemma_find_bound(t.skip(3), triple_single());
}

// Executable recognisers over `v[i..lim]`.
broadcast use crate::window::lemma_window_skip;

/// Whether `v[i..lim]` starts with `p`.
pub fn tag(v: &Vec<char>, i: usize, lim: usize, p: &str) -> (r: bool)
    requires
        i <= lim <= v@.len(),
    ensures
        r == starts_with(window(v@, i as int, lim as int), p@),
{
    let n = p.unicode_len();
    if n > lim - i {
        return false;
    }
    let mut k: usize = 0;
    while k < n
        invariant
            i <= lim <= v@.len(),
            n == p@.len(),
            n <= lim - i,
            k <= n,
            forall|m: int| 0 <= m < k ==> v@[i + m] == p@[m],
        decreases n - k,
    {
        if v[i + k] != p.get_char(k) {
            assert(window(v@, i as int, lim as int).subrange(0, n as int)[k as int] != p@[k as int]);
            return false;
        }
        k = k + 1;
    }
    assert(window(v@, i as int, lim as int).subrange(0, n as int) =~= p@);
    true
}

pub fn is_space_char(c: char) -> (r: bool)
    ensures
        r == is_space(c),
{
    c == ' ' || c == '\t'
}

pub fn is_identifier_char(c: char) -> (r: bool)
    ensures
        r == is_ident_char(c),
{
    ('a' <= c && c <= 'z') || ('A' <= c && c <= 'Z') || ('0' <= c && c <= '9') || c == '_'
}

/// Spaces and tabs, without continuations.
pub fn parse_spaces(v: &Vec<char>, i: usize, lim: usize) -> (r: usize)
    requires
        i <= lim <= v@.len(),
    ensures
        r == i + spaces_len(window(v@, i as int, lim as int)),
        r <= lim,
{
    let mut j = i;
    while j < lim && is_space_char(v[j])
        invariant
            i <= j <= lim <= v@.len(),
            spaces_len(window(v@, i as int, lim as int)) == (j - i) + spaces_len(
                window(v@, j as int, lim as int),
            ),
        decreases lim - j,
    {
        j = j + 1;
    }
    j
}

/// Horizontal whitespace, possibly empty.
pub fn parse_space0(v: &Vec<char>, i: usize, lim: usize) -> (r: usize)
    requires
        i <= lim <= v@.len(),
    ensures
        r == i + hspace_len(window(v@, i as int, lim as int)),
        r <= lim,
{
    let mut j = i;
    while j < lim && (is_space_char(v[j]) || (v[j] == '\\' && j + 1 < lim && v[j + 1] == '\n'))
        invariant
            i <= j <= lim <= v@.len(),
            hspace_len(window(v@, i as int, lim as int)) == (j - i) + hspace_len(
                window(v@, j as int, lim as int),
            ),
        decreases lim - j,
    {
        if is_space_char(v[j]) {
            j = j + 1;
        } else {
            j = j + 2;
        }
    }
    j
}

/// Whitespace including line terminators, possibly empty.
pub fn parse_multispace0(v: &Vec<char>, i: usize, lim: usize) -> (r: usize)
    requires
        i <= lim <= v@.len(),
    ensures
        r == i + multispace_len(window(v@, i as int, lim as int)),
        r <= lim,
{
    let mut j = i;
    while j < lim && (v[j] == ' ' || v[j] == '\t' || v[j] == '\r' || v[j] == '\n')
        invariant
            i <= j <= lim <= v@.len(),
            multispace_len(window(v@, i as int, lim as int)) == (j - i) + multispace_len(
                window(v@, j as int, lim as int),
            ),
        decreases lim - j,
    {
        j = j + 1;
    }
    j
}

pub fn parse_identifier(v: &Vec<char>, i: usize, lim: usize) -> (r: usize)
    requires
        i <= lim <= v@.len(),
    ensures
        r == i + ident_len(window(v@, i as int, lim as int)),
        r <= lim,
{
    let mut j = i;
    while j < lim && is_identifier_char(v[j])
        invariant
            i <= j <= lim <= v@.len(),
            ident_len(window(v@, i as int, lim as int)) == (j - i) + ident_len(
                window(v@, j as int, lim as int),
            ),
        decreases lim - j,
    {
        j = j + 1;
    }
    j
}

pub fn parse_dots(v: &Vec<char>, i: usize, lim: usize) -> (r: usize)
    requires
        i <= lim <= v@.len(),
    ensures
        r == i + dots_len(window(v@, i as int, lim as int)),
        r <= lim,
{
    let mut j = i;
    while j < lim && v[j] == '.'
        invariant
            i <= j <= lim <= v@.len(),
            dots_len(window(v@, i as int, lim as int)) == (j - i) + dots_len(
                window(v@, j as int, lim as int),
            ),
        decreases lim - j,
    {
        j = j + 1;
    }
    j
}

pub fn parse_line_ending(v: &Vec<char>, i: usize, lim: usize) -> (r: usize)
    requires
        i <= lim <= v@.len(),
    ensures
        r == i + line_ending_len(window(v@, i as int, lim as int)),
        r <= lim,
{
    if i < lim && v[i] == '\n' {
        i + 1
    } else if i < lim && i + 1 < lim && v[i] == '\r' && v[i + 1] == '\n' {
        i + 2
    } else {
        i
    }
}

/// Everything up to the next line terminator, possibly empty.
pub fn parse_not_line_ending(v: &Vec<char>, i: usize, lim: usize) -> (r: usize)
    requires
        i <= lim <= v@.len(),
    ensures
        r == i + rest_of_line_len(window(v@, i as int, lim as int)),
        r <= lim,
{
    let mut j = i;
    while j < lim && parse_line_ending(v, j, lim) == j
        invariant
            i <= j <= lim <= v@.len(),
            rest_of_line_len(window(v@, i as int, lim as int)) == (j - i) + rest_of_line_len(
                window(v@, j as int, lim as int),
            ),
        decreases lim - j,
    {
        j = j + 1;
    }
    j
}

pub fn parse_comment(v: &Vec<char>, i: usize, lim: usize) -> (r: usize)
    requires
        i <= lim <= v@.len(),
    ensures
        r == i + comment_len(window(v@, i as int, lim as int)),
        r <= lim,
{
    if i < lim && v[i] == '#' {
        parse_not_line_ending(v, i + 1, lim)
    } else {
        i
    }
}

/// Any mixture of whitespace, line terminators and comments.
pub fn parse_multispace0_or_comment(v: &Vec<char>, i: usize, lim: usize) -> (r: usize)
    requires
        i <= lim <= v@.len(),
    ensures
        r == i + filler_len(window(v@, i as int, lim as int)),
        r <= lim,
{
    let mut j = i;
    loop
        invariant
            i <= j <= lim <= v@.len(),
            filler_len(window(v@, i as int, lim as int)) == (j - i) + filler_len(
                window(v@, j as int, lim as int),
            ),
        decreases lim - j,
    {
        let k = parse_multispace0(v, j, lim);
        if k > j {
            proof { lemma_filler_over_multispace(window(v@, j as int, lim as int)); }
            j = k;
        } else if j < lim && v[j] == '#' {
            let e = parse_not_line_ending(v, j + 1, lim);
            proof {
                lemma_comment_filler(window(v@, j as int + 1, lim as int));
                assert(window(v@, j as int, lim as int).skip(1) == window(v@, j as int + 1, lim as int));
            }
            j = e;
        } else {
            return j;
        }
    }
}

pub proof fn lemma_filler_over_multispace(t: Seq<char>)
    ensures
        filler_len(t) == multispace_len(t) + filler_len(t.skip(multispace_len(t) as int)),
    decreases t.len(),
{
    if t.len() > 0 && is_multispace(t[0]) {
        lemma_filler_over_multispace(t.skip(1));
        lemma_multispace_bound(t.skip(1));
        assert(t.skip(1).skip(multispace_len(t.skip(1)) as int) =~= t.skip(multispace_len(t) as int));
    } else {
        assert(t.skip(0) =~= t);
    }
}

pub proof fn lemma_comment_filler(t: Seq<char>)
    ensures
        comment_filler_len(t) == rest_of_line_len(t) + filler_len(
            t.skip(rest_of_line_len(t) as int),
        ),
    decreases t.len(),
{
    if t.len() == 0 || line_ending_len(t) > 0 {
        assert(t.skip(0) =~= t);
    } else {
        lemma_comment_filler(t.skip(1));
        lemma_rest_of_line_bound(t.skip(1));
        assert(t.skip(1).skip(rest_of_line_len(t.skip(1)) as int) =~= t.skip(
            rest_of_line_len(t) as int,
        ));
    }
}

pub fn parse_module(v: &Vec<char>, i: usize, lim: usize) -> (r: usize)
    requires
        i <= lim <= v@.len(),
    ensures
        r == i + module_len(window(v@, i as int, lim as int)),
        r <= lim,
{
    if !(i < lim && is_identifier_char(v[i])) {
        return i;
    }
    let mut j = i + 1;
    while j < lim && (is_identifier_char(v[j]) || (v[j] == '.' && j + 1 < lim
        && is_identifier_char(v[j + 1])))
        invariant
            i < j <= lim <= v@.len(),
            module_len(window(v@, i as int, lim as int)) == (j - i) + module_rest_len(
                window(v@, j as int, lim as int),
            ),
        decreases lim - j,
    {
        if is_identifier_char(v[j]) {
            j = j + 1;
        } else {
            j = j + 2;
        }
    }
    j
}

pub fn parse_relative_module(v: &Vec<char>, i: usize, lim: usize) -> (r: usize)
    requires
        i <= lim <= v@.len(),
    ensures
        r == i + relative_module_len(window(v@, i as int, lim as int)),
        r <= lim,
{
    let d = parse_dots(v, i, lim);
    let m = parse_module(v, d, lim);
    m
}

/// Position of the first occurrence of `p` in `v[i..lim]`, if any.
pub fn find_tag(v: &Vec<char>, i: usize, lim: usize, p: &str) -> (r: Option<usize>)
    requires
        i <= lim <= v@.len(),
    ensures
        match find(window(v@, i as int, lim as int), p@) {
            Some(k) => r == Some((i + k) as usize),
            None => r is None,
        },
{
    let mut j = i;
    loop
        invariant
            i <= j <= lim <= v@.len(),
            find(window(v@, i as int, lim as int), p@) == match find(
                window(v@, j as int, lim as int),
                p@,
            ) {
                Some(k) => Some(k + (j - i) as nat),
                None => None::<nat>,
            },
        decreases lim - j,
    {
        if tag(v, j, lim, p) {
            return Some(j);
        }
        if j == lim {
            return None;
        }
        j = j + 1;
    }
}

/// A triple-quoted literal, closed by the first matching triple quote.
pub fn parse_multiline_comment(v: &Vec<char>, i: usize, lim: usize) -> (r: usize)
    requires
        i <= lim <= v@.len(),
    ensures
        r == i + triple_quoted_len(window(v@, i as int, lim as int)),
        r <= lim,
{
    proof {
        lemma_triple_quoted_bound(window(v@, i as int, lim as int));
        reveal_strlit("\"\"\"");
        reveal_strlit("'''");
        assert("\"\"\""@ =~= triple_double());
        assert("'''"@ =~= triple_single());
    }
    let q = if tag(v, i, lim, "\"\"\"") {
        "\"\"\""
    } else if tag(v, i, lim, "'''") {
        "'''"
    } else {
        return i;
    };
    match find_tag(v, i + 3, lim, q) {
        Some(k) => k + 3,
        None => i,
    }
}

} // verus!
