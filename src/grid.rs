//! Grids, masks of visited cells, and walks through neighbouring cells.

use vstd::prelude::*;

use crate::candidates::Coord;
use crate::trie::lookup;

verus! {

/// The letters of a grid given as a vector of rows.
pub open spec fn grid_of(p: Seq<Vec<char>>) -> Seq<Seq<char>> {
    p.map_values(|r: Vec<char>| r@)
}

/// The flags of a visited mask given as a vector of rows.
pub open spec fn marks_of(v: Seq<Vec<bool>>) -> Seq<Seq<bool>> {
    v.map_values(|r: Vec<bool>| r@)
}

pub open spec fn rows(g: Seq<Seq<char>>) -> int {
    g.len() as int
}

pub open spec fn cols(g: Seq<Seq<char>>) -> int {
    g[0].len() as int
}

/// A non-empty rectangular grid whose extents fit a signed coordinate.
pub open spec fn is_grid(g: Seq<Seq<char>>) -> bool {
    &&& g.len() >= 1
    &&& g.len() <= isize::MAX
    &&& g[0].len() <= isize::MAX
    &&& forall|r: int| 0 <= r < g.len() ==> (#[trigger] g[r]).len() == g[0].len()
}

/// A mask of the same extents as the grid.
pub open spec fn same_shape(v: Seq<Seq<bool>>, g: Seq<Seq<char>>) -> bool {
    &&& v.len() == g.len()
    &&& forall|r: int| 0 <= r < v.len() ==> (#[trigger] v[r]).len() == g[r].len()
}

pub open spec fn in_bounds(c: Coord, rows: int, cols: int) -> bool {
    0 <= c.0 < rows && 0 <= c.1 < cols
}

/// Two distinct cells that touch by a side or a corner.
pub open spec fn adjacent(a: Coord, b: Coord) -> bool {
    &&& a != b
    &&& -1 <= a.0 - b.0 <= 1
    &&& -1 <= a.1 - b.1 <= 1
}

/// In-bounds cells, each adjacent to the one before, none repeated.
pub open spec fn is_simple_path(path: Seq<Coord>, rows: int, cols: int) -> bool {
    &&& forall|i: int| 0 <= i < path.len() ==> in_bounds(#[trigger] path[i], rows, cols)
    &&& forall|i: int| 0 < i < path.len() ==> adjacent(path[i - 1], #[trigger] path[i])
    &&& forall|i: int, j: int| 0 <= i < j < path.len() ==> #[trigger] path[i] != #[trigger] path[j]
}

pub open spec fn letter_at(g: Seq<Seq<char>>, c: Coord) -> char {
    g[c.0 as int][c.1 as int]
}

/// The letters read along `path`.
pub open spec fn spells(g: Seq<Seq<char>>, path: Seq<Coord>) -> Seq<char> {
    path.map_values(|c: Coord| letter_at(g, c))
}

pub open spec fn is_marked(v: Seq<Seq<bool>>, c: Coord) -> bool {
    v[c.0 as int][c.1 as int]
}

/// The mask `v` with cell `c` marked.
pub open spec fn mark(v: Seq<Seq<bool>>, c: Coord) -> Seq<Seq<bool>> {
    v.update(c.0 as int, v[c.0 as int].update(c.1 as int, true))
}

/// A simple path that starts at `start` and enters no marked cell.
pub open spec fn is_walk_from(g: Seq<Seq<char>>, v: Seq<Seq<bool>>, start: Coord, ext: Seq<Coord>) -> bool {
    &&& ext.len() > 0
    &&& ext[0] == start
    &&& is_simple_path(ext, rows(g), cols(g))
    &&& forall|i: int| 0 <= i < ext.len() ==> !is_marked(v, #[trigger] ext[i])
}

/// The complete words of `dict` that read `prefix` followed by the letters of
/// some walk from `start` that avoids the marked cells of `v`.
pub open spec fn found_words(
    g: Seq<Seq<char>>,
    v: Seq<Seq<bool>>,
    dict: Map<Seq<char>, bool>,
    prefix: Seq<char>,
    start: Coord,
) -> Set<Seq<char>> {
    Set::new(
        |w: Seq<char>|
            lookup(dict, w) == Some(true) && exists|ext: Seq<Coord>|
                #[trigger] is_walk_from(g, v, start, ext) && w == prefix + spells(g, ext),
    )
}

/// `path` continues `base` with a walk from `start` that avoids the marked
/// cells of `v` and reads the rest of `w` after `prefix`.
pub open spec fn extends_walk(
    g: Seq<Seq<char>>,
    v: Seq<Seq<bool>>,
    start: Coord,
    prefix: Seq<char>,
    base: Seq<Coord>,
    w: Seq<char>,
    path: Seq<Coord>,
) -> bool {
    let ext = path.subrange(base.len() as int, path.len() as int);
    &&& base.len() <= path.len()
    &&& path.subrange(0, base.len() as int) == base
    &&& is_walk_from(g, v, start, ext)
    &&& w == prefix + spells(g, ext)
}

/// The eight neighbour offsets, clockwise from straight up.
pub open spec fn offset(k: int) -> Coord {
    if k == 0 {
        (-1isize, 0isize)
    } else if k == 1 {
        (-1isize, 1isize)
    } else if k == 2 {
        (0, 1)
    } else if k == 3 {
        (1, 1)
    } else if k == 4 {
        (1, 0)
    } else if k == 5 {
        (1isize, -1isize)
    } else if k == 6 {
        (0isize, -1isize)
    } else {
        (-1isize, -1isize)
    }
}

/// The cell next to `c` in direction `k`.
pub open spec fn step(c: Coord, k: int) -> Coord {
    ((c.0 + offset(k).0) as isize, (c.1 + offset(k).1) as isize)
}

pub fn offset_at(k: usize) -> (r: Coord)
    requires
        k < 8,
    ensures
        r == offset(k as int),
{
    match k {
        0 => (-1, 0),
        1 => (-1, 1),
        2 => (0, 1),
        3 => (1, 1),
        4 => (1, 0),
        5 => (1, -1),
        6 => (0, -1),
        _ => (-1, -1),
    }
}

/// The number of unmarked flags in a row.
pub open spec fn count_unmarked(r: Seq<bool>) -> nat
    decreases r.len(),
{
    if r.len() == 0 {
        0
    } else {
        count_unmarked(r.drop_last()) + if r.last() {
            0nat
        } else {
            1nat
        }
    }
}

/// The number of unmarked cells of a mask.
pub open spec fn unmarked(v: Seq<Seq<bool>>) -> nat
    decreases v.len(),
{
    if v.len() == 0 {
        0
    } else {
        unmarked(v.drop_last()) + count_unmarked(v.last())
    }
}

proof fn lemma_count_unmarked_set(r: Seq<bool>, j: int)
    requires
        0 <= j < r.len(),
        !r[j],
    ensures
        count_unmarked(r.update(j, true)) + 1 == count_unmarked(r),
    decreases r.len(),
{
    let u = r.update(j, true);
    if j < r.len() - 1 {
        assert(u.drop_last() =~= r.drop_last().update(j, true));
        lemma_count_unmarked_set(r.drop_last(), j);
    } else {
        assert(u.drop_last() =~= r.drop_last());
    }
}

/// Marking an unmarked cell leaves one unmarked cell fewer.
pub proof fn lemma_mark_decreases(v: Seq<Seq<bool>>, c: Coord)
    requires
        0 <= c.0 < v.len(),
        0 <= c.1 < v[c.0 as int].len(),
        !is_marked(v, c),
    ensures
        unmarked(mark(v, c)) < unmarked(v),
    decreases v.len(),
{
    let m = mark(v, c);
    if c.0 < v.len() - 1 {
        assert(m.drop_last() =~= mark(v.drop_last(), c));
        lemma_mark_decreases(v.drop_last(), c);
    } else {
        assert(m.drop_last() =~= v.drop_last());
        lemma_count_unmarked_set(v[c.0 as int], c.1 as int);
    }
}

/// Marking `p` changes the flag of `p` alone, and sets it.
pub proof fn lemma_mark_flags(g: Seq<Seq<char>>, v: Seq<Seq<bool>>, p: Coord, c: Coord)
    requires
        is_grid(g),
        same_shape(v, g),
        in_bounds(p, rows(g), cols(g)),
        in_bounds(c, rows(g), cols(g)),
    ensures
        same_shape(mark(v, p), g),
        is_marked(mark(v, p), c) == (c == p || is_marked(v, c)),
{
    assert(v[p.0 as int].len() == g[p.0 as int].len());
    assert(v[c.0 as int].len() == g[c.0 as int].len());
    let m = mark(v, p);
    assert forall|r: int| 0 <= r < m.len() implies (#[trigger] m[r]).len() == g[r].len() by {
        assert(v[r].len() == g[r].len());
    }
}

/// The one-cell walk.
pub proof fn lemma_walk_single(g: Seq<Seq<char>>, v: Seq<Seq<bool>>, p: Coord)
    requires
        in_bounds(p, rows(g), cols(g)),
        !is_marked(v, p),
    ensures
        is_walk_from(g, v, p, seq![p]),
        spells(g, seq![p]) == seq![letter_at(g, p)],
{
    assert(spells(g, seq![p]) =~= seq![letter_at(g, p)]);
}

/// A step from `p` followed by a walk that avoids `p` is a walk from `p`.
pub proof fn lemma_walk_cons(g: Seq<Seq<char>>, v: Seq<Seq<bool>>, p: Coord, k: int, rest: Seq<Coord>)
    requires
        is_grid(g),
        same_shape(v, g),
        in_bounds(p, rows(g), cols(g)),
        !is_marked(v, p),
        0 <= k < 8,
        is_walk_from(g, mark(v, p), step(p, k), rest),
    ensures
        is_walk_from(g, v, p, seq![p] + rest),
        spells(g, seq![p] + rest) == seq![letter_at(g, p)] + spells(g, rest),
{
    let ext = seq![p] + rest;
    assert forall|i: int| 0 <= i < rest.len() implies #[trigger] rest[i] != p && !is_marked(v, rest[i]) by {
        lemma_mark_flags(g, v, p, rest[i]);
    }
    assert forall|i: int| 0 <= i < ext.len() implies in_bounds(#[trigger] ext[i], rows(g), cols(g)) && !is_marked(v, ext[i]) by {
        if i > 0 {
            assert(ext[i] == rest[i - 1]);
        }
    }
    assert forall|i: int| 0 < i < ext.len() implies adjacent(ext[i - 1], #[trigger] ext[i]) by {
        assert(ext[i] == rest[i - 1]);
        if i > 1 {
            assert(ext[i - 1] == rest[i - 2]);
        }
    }
    assert forall|i: int, j: int| 0 <= i < j < ext.len() implies #[trigger] ext[i] != #[trigger] ext[j] by {
        assert(ext[j] == rest[j - 1]);
        if i > 0 {
            assert(ext[i] == rest[i - 1]);
        }
    }
    assert(spells(g, ext) =~= seq![letter_at(g, p)] + spells(g, rest));
}

/// A walk from `p` of two cells or more steps to a neighbour of `p` and goes
/// on with a walk that avoids `p`.
pub proof fn lemma_walk_split(g: Seq<Seq<char>>, v: Seq<Seq<bool>>, p: Coord, ext: Seq<Coord>) -> (k: int)
    requires
        is_grid(g),
        same_shape(v, g),
        is_walk_from(g, v, p, ext),
        ext.len() > 1,
    ensures
        0 <= k < 8,
        ext[1] == step(p, k),
        is_walk_from(g, mark(v, p), step(p, k), ext.drop_first()),
        spells(g, ext) == seq![letter_at(g, p)] + spells(g, ext.drop_first()),
{
    let rest = ext.drop_first();
    let q = ext[1];
    assert(adjacent(ext[0], ext[1]));
    let k: int = if q.0 == p.0 - 1 && q.1 == p.1 {
        0
    } else if q.0 == p.0 - 1 && q.1 == p.1 + 1 {
        1
    } else if q.0 == p.0 && q.1 == p.1 + 1 {
        2
    } else if q.0 == p.0 + 1 && q.1 == p.1 + 1 {
        3
    } else if q.0 == p.0 + 1 && q.1 == p.1 {
        4
    } else if q.0 == p.0 + 1 && q.1 == p.1 - 1 {
        5
    } else if q.0 == p.0 && q.1 == p.1 - 1 {
        6
    } else {
        7
    };
    assert(in_bounds(ext[0], rows(g), cols(g)));
    assert(in_bounds(ext[1], rows(g), cols(g)));
    assert(q == step(p, k));
    assert forall|i: int| 0 <= i < rest.len() implies !is_marked(mark(v, p), #[trigger] rest[i]) by {
        assert(rest[i] == ext[i + 1]);
        assert(ext[0] != ext[i + 1]);
        assert(in_bounds(ext[i + 1], rows(g), cols(g)));
        assert(!is_marked(v, ext[i + 1]));
        lemma_mark_flags(g, v, p, rest[i]);
    }
    assert forall|i: int| 0 <= i < rest.len() implies in_bounds(#[trigger] rest[i], rows(g), cols(g)) by {
        assert(rest[i] == ext[i + 1]);
    }
    assert forall|i: int| 0 < i < rest.len() implies adjacent(rest[i - 1], #[trigger] rest[i]) by {
        assert(rest[i] == ext[i + 1]);
        assert(rest[i - 1] == ext[i]);
    }
    assert forall|i: int, j: int| 0 <= i < j < rest.len() implies #[trigger] rest[i] != #[trigger] rest[j] by {
        assert(rest[i] == ext[i + 1]);
        assert(rest[j] == ext[j + 1]);
    }
    assert(spells(g, ext) =~= seq![letter_at(g, p)] + spells(g, rest));
    k
}

/// A mask with no cell marked.
pub open spec fn blank(g: Seq<Seq<char>>) -> Seq<Seq<bool>> {
    Seq::new(g.len(), |i: int| Seq::new(g[i].len(), |j: int| false))
}

/// A dictionary word together with a path that spells it.
pub open spec fn is_candidate(g: Seq<Seq<char>>, w: Seq<char>, path: Seq<Coord>) -> bool {
    &&& path.len() > 0
    &&& is_simple_path(path, rows(g), cols(g))
    &&& spells(g, path) == w
}

/// The complete words of `dict` that some simple path of the grid spells.
pub open spec fn reachable_words(g: Seq<Seq<char>>, dict: Map<Seq<char>, bool>) -> Set<Seq<char>> {
    Set::new(
        |w: Seq<char>|
            lookup(dict, w) == Some(true) && exists|path: Seq<Coord>| #[trigger] is_candidate(g, w, path),
    )
}

/// A mask of `rows` rows of `cols` unmarked cells.
pub fn blank_mask(rows: usize, cols: usize) -> (r: Vec<Vec<bool>>)
    ensures
        marks_of(r@) == Seq::new(rows as nat, |i: int| Seq::new(cols as nat, |j: int| false)),
{
    let mut r: Vec<Vec<bool>> = Vec::new();
    let mut i: usize = 0;
    assert(marks_of(r@) =~= Seq::new(0 as nat, |k: int| Seq::new(cols as nat, |j: int| false)));
    while i < rows
        invariant
            i <= rows,
            r@.len() == i,
            marks_of(r@) == Seq::new(i as nat, |k: int| Seq::new(cols as nat, |j: int| false)),
        decreases rows - i,
    {
        let mut line: Vec<bool> = Vec::new();
        let mut j: usize = 0;
        while j < cols
            invariant
                j <= cols,
                line@ =~= Seq::new(j as nat, |k: int| false),
            decreases cols - j,
        {
            line.push(false);
            j += 1;
        }
        let ghost prev = r@;
        r.push(line);
        proof {
            let want = Seq::new((i + 1) as nat, |k: int| Seq::new(cols as nat, |j: int| false));
            assert forall|k: int| 0 <= k < i + 1 implies #[trigger] marks_of(r@)[k] =~= want[k] by {
                if k < i {
                    assert(r@[k] == prev[k]);
                    assert(marks_of(prev)[k] == want[k]);
                }
            }
            assert(marks_of(r@) =~= want);
        }
        i += 1;
    }
    r
}

} // verus!
