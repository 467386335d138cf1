//! Windows `s[i..lim]` of the input, the unit every recogniser works on.
use vstd::prelude::*;

verus! {

pub open spec fn window(s: Seq<char>, i: int, lim: int) -> Seq<char> {
    s.subrange(i, lim)
}

/// Skipping into a window is a window that starts further on.
pub broadcast proof fn lemma_window_skip(s: Seq<char>, i: int, lim: int, k: int)
    requires
        0 <= i <= lim <= s.len(),
        0 <= k <= lim - i,
    ensures
        #[trigger] s.subrange(i, lim).skip(k) == s.subrange(i + k, lim),
{
    assert(s.subrange(i, lim).skip(k) =~= s.subrange(i + k, lim));
}

/// Skipping into the first part of a concatenation.
pub broadcast proof fn lemma_concat_skip(x: Seq<char>, q: Seq<char>, k: int)
    requires
        0 <= k <= x.len(),
    ensures
        #[trigger] (x + q).skip(k) == x.skip(k) + q,
{
    assert((x + q).skip(k) =~= x.skip(k) + q);
}

pub broadcast proof fn lemma_concat_subrange(x: Seq<char>, q: Seq<char>, a: int, b: int)
    requires
        0 <= a <= b <= x.len(),
    ensures
        #[trigger] (x + q).subrange(a, b) == x.subrange(a, b),
{
    assert((x + q).subrange(a, b) =~= x.subrange(a, b));
}

} // verus!
