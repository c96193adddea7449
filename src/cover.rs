//! Choices of words whose paths cover a grid exactly once.

use vstd::prelude::*;

use crate::candidates::Coord;
use crate::grid::in_bounds;

verus! {

/// The texts of a vector of strings.
pub open spec fn words_of(s: Seq<String>) -> Seq<Seq<char>> {
    s.map_values(|x: String| x@)
}

/// The two paths share a cell.
pub open spec fn paths_overlap(a: Seq<Coord>, b: Seq<Coord>) -> bool {
    exists|i: int, j: int| 0 <= i < a.len() && 0 <= j < b.len() && #[trigger] a[i] == #[trigger] b[j]
}

/// The words `sol` are all mapped by `m`, none twice, and no two of their
/// paths share a cell.
pub open spec fn is_partial(m: Map<Seq<char>, Seq<Coord>>, sol: Seq<Seq<char>>) -> bool {
    &&& forall|i: int| 0 <= i < sol.len() ==> m.contains_key(#[trigger] sol[i])
    &&& forall|i: int, j: int| 0 <= i < sol.len() && 0 <= j < sol.len() && i != j ==> #[trigger] sol[i] != #[trigger] sol[j]
    &&& forall|i: int, j: int|
        0 <= i < sol.len() && 0 <= j < sol.len() && i != j ==> !paths_overlap(m[#[trigger] sol[i]], m[#[trigger] sol[j]])
}

/// Cell `c` lies on the path of one of the words `sol`.
pub open spec fn is_covered(m: Map<Seq<char>, Seq<Coord>>, sol: Seq<Seq<char>>, c: Coord) -> bool {
    exists|i: int, k: int| 0 <= i < sol.len() && 0 <= k < m[sol[i]].len() && #[trigger] m[sol[i]][k] == c
}

/// The paths of the words `sol` lie in the grid and together reach every cell.
pub open spec fn covers(m: Map<Seq<char>, Seq<Coord>>, sol: Seq<Seq<char>>, rows: int, cols: int) -> bool {
    &&& forall|i: int, k: int|
        0 <= i < sol.len() && 0 <= k < m[sol[i]].len() ==> in_bounds(#[trigger] m[sol[i]][k], rows, cols)
    &&& forall|c: Coord| in_bounds(c, rows, cols) ==> #[trigger] is_covered(m, sol, c)
}

/// The words `sol` of `m` cover every cell of the grid exactly once.
pub open spec fn is_exact_cover(m: Map<Seq<char>, Seq<Coord>>, sol: Seq<Seq<char>>, rows: int, cols: int) -> bool {
    is_partial(m, sol) && covers(m, sol, rows, cols)
}

/// Some exact cover of `n` words of `m` begins with the words `sol`.
pub open spec fn has_completion(
    m: Map<Seq<char>, Seq<Coord>>,
    sol: Seq<Seq<char>>,
    n: int,
    rows: int,
    cols: int,
) -> bool {
    exists|full: Seq<Seq<char>>|
        full.len() == n && sol.is_prefix_of(full) && #[trigger] is_exact_cover(m, full, rows, cols)
}

pub proof fn lemma_overlap_symmetric(a: Seq<Coord>, b: Seq<Coord>)
    ensures
        paths_overlap(a, b) == paths_overlap(b, a),
{
    if paths_overlap(a, b) {
        let (i, j) = choose|i: int, j: int| 0 <= i < a.len() && 0 <= j < b.len() && #[trigger] a[i] == #[trigger] b[j];
        assert(b[j] == a[i]);
    }
    if paths_overlap(b, a) {
        let (i, j) = choose|i: int, j: int| 0 <= i < b.len() && 0 <= j < a.len() && #[trigger] b[i] == #[trigger] a[j];
        assert(a[j] == b[i]);
    }
}

pub proof fn lemma_words_of_push(s: Seq<String>, x: String)
    ensures
        words_of(s.push(x)) == words_of(s).push(x@),
{
    assert(words_of(s.push(x)) =~= words_of(s).push(x@));
}

/// The words of a partial choice are all mapped.
pub proof fn lemma_partial_keys(m: Map<Seq<char>, Seq<Coord>>, s: Seq<String>)
    requires
        is_partial(m, words_of(s)),
    ensures
        forall|i: int| 0 <= i < s.len() ==> m.contains_key(#[trigger] s[i]@),
{
    assert forall|i: int| 0 <= i < s.len() implies m.contains_key(#[trigger] s[i]@) by {
        assert(words_of(s)[i] == s[i]@);
    }
}

/// A new word that is mapped, not yet chosen, and shares no cell with a
/// chosen one keeps the choice partial.
pub proof fn lemma_partial_push(m: Map<Seq<char>, Seq<Coord>>, sol: Seq<Seq<char>>, w: Seq<char>)
    requires
        is_partial(m, sol),
        m.contains_key(w),
        !sol.contains(w),
        forall|t: int| 0 <= t < sol.len() ==> !paths_overlap(m[w], m[#[trigger] sol[t]]),
    ensures
        is_partial(m, sol.push(w)),
{
    let s2 = sol.push(w);
    let n = sol.len() as int;
    assert forall|i: int| 0 <= i < s2.len() implies m.contains_key(#[trigger] s2[i]) by {
        if i < n {
            assert(s2[i] == sol[i]);
        }
    }
    assert forall|i: int, j: int| 0 <= i < s2.len() && 0 <= j < s2.len() && i != j implies #[trigger] s2[i] != #[trigger] s2[j] by {
        if i == n {
            assert(s2[j] == sol[j]);
        } else if j == n {
            assert(s2[i] == sol[i]);
        } else {
            assert(s2[i] == sol[i] && s2[j] == sol[j]);
        }
    }
    assert forall|i: int, j: int|
        0 <= i < s2.len() && 0 <= j < s2.len() && i != j implies !paths_overlap(m[#[trigger] s2[i]], m[#[trigger] s2[j]]) by {
        if i == n {
            assert(s2[j] == sol[j]);
        } else if j == n {
            assert(s2[i] == sol[i]);
            lemma_overlap_symmetric(m[w], m[sol[i]]);
        } else {
            assert(s2[i] == sol[i] && s2[j] == sol[j]);
        }
    }
}

/// A choice that repeats a word, or whose new word shares a cell with a
/// chosen one, begins no exact cover.
pub proof fn lemma_no_completion_push(
    m: Map<Seq<char>, Seq<Coord>>,
    sol: Seq<Seq<char>>,
    w: Seq<char>,
    n: int,
    rows: int,
    cols: int,
)
    requires
        sol.contains(w) || exists|t: int| 0 <= t < sol.len() && paths_overlap(m[w], m[#[trigger] sol[t]]),
    ensures
        !has_completion(m, sol.push(w), n, rows, cols),
{
    let s2 = sol.push(w);
    let l = sol.len() as int;
    assert forall|full: Seq<Seq<char>>| full.len() == n && s2.is_prefix_of(full) implies !#[trigger] is_exact_cover(m, full, rows, cols) by {
        assert(full[l] == w) by {
            assert(full.subrange(0, s2.len() as int)[l] == s2[l]);
        }
        if sol.contains(w) {
            let t = choose|t: int| 0 <= t < sol.len() && sol[t] == w;
            assert(full[t] == s2[t]) by {
                assert(full.subrange(0, s2.len() as int)[t] == s2[t]);
            }
            assert(full[t] == full[l]);
        } else {
            let t = choose|t: int| 0 <= t < sol.len() && paths_overlap(m[w], m[#[trigger] sol[t]]);
            assert(full[t] == s2[t]) by {
                assert(full.subrange(0, s2.len() as int)[t] == s2[t]);
            }
            assert(paths_overlap(m[full[l]], m[full[t]]));
        }
    }
}

/// A choice of every word begins an exact cover only if it is one.
pub proof fn lemma_completion_full(
    m: Map<Seq<char>, Seq<Coord>>,
    sol: Seq<Seq<char>>,
    n: int,
    rows: int,
    cols: int,
)
    requires
        sol.len() == n,
    ensures
        has_completion(m, sol, n, rows, cols) == is_exact_cover(m, sol, rows, cols),
{
    if has_completion(m, sol, n, rows, cols) {
        let full = choose|full: Seq<Seq<char>>|
            full.len() == n && sol.is_prefix_of(full) && #[trigger] is_exact_cover(m, full, rows, cols);
        assert(full =~= sol);
    }
    if is_exact_cover(m, sol, rows, cols) {
        assert(sol.is_prefix_of(sol));
    }
}

/// An exact cover that begins with a shorter choice also begins with that
/// choice and its next word.
pub proof fn lemma_completion_step(
    m: Map<Seq<char>, Seq<Coord>>,
    sol: Seq<Seq<char>>,
    n: int,
    rows: int,
    cols: int,
) -> (w: Seq<char>)
    requires
        sol.len() < n,
        has_completion(m, sol, n, rows, cols),
    ensures
        m.contains_key(w),
        has_completion(m, sol.push(w), n, rows, cols),
{
    let full = choose|full: Seq<Seq<char>>|
        full.len() == n && sol.is_prefix_of(full) && #[trigger] is_exact_cover(m, full, rows, cols);
    let l = sol.len() as int;
    let w = full[l];
    assert(sol.push(w) =~= full.subrange(0, l + 1));
    assert(sol.push(w).is_prefix_of(full));
    w
}

} // verus!
