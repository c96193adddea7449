//! Puzzles: finding the words a grid spells, and choosing those that cover it.

use vstd::prelude::*;

use crate::candidates::{copy_path, Candidates, Coord};
use crate::grid::{
    blank, blank_mask, cols, extends_walk, found_words, grid_of, in_bounds, is_candidate, is_grid,
    is_marked, is_walk_from, lemma_mark_decreases, lemma_mark_flags, lemma_walk_cons,
    lemma_walk_single, lemma_walk_split, letter_at, mark, marks_of, offset_at, reachable_words,
    rows, same_shape, spells, step, unmarked,
};
use crate::cover::{
    covers, has_completion, is_covered, is_exact_cover, is_partial, lemma_completion_full,
    lemma_completion_step, lemma_no_completion_push, lemma_partial_keys, lemma_partial_push,
    lemma_words_of_push, paths_overlap, words_of,
};
use crate::text::{chars_of, lines, lines_of};
use crate::trie::{lookup, Trie};

verus! {

/// A puzzle: a grid of letters and the number of words its solution uses.
#[derive(PartialEq, Debug, Clone)]
pub struct Strands {
    pub puzzle: Vec<Vec<char>>,
    pub num_answers: usize,
}

/// A walk from `p` reads the letter of `p` and then, if it goes on, what a
/// walk from one of the neighbours of `p` reads while avoiding `p`.
proof fn lemma_found_step(
    g: Seq<Seq<char>>,
    v: Seq<Seq<bool>>,
    trie: Trie,
    prefix: Seq<char>,
    p: Coord,
)
    requires
        is_grid(g),
        same_shape(v, g),
        in_bounds(p, rows(g), cols(g)),
        !is_marked(v, p),
    ensures
        ({
            let here = prefix.push(letter_at(g, p));
            forall|w: Seq<char>|
                #[trigger] found_words(g, v, trie@, prefix, p).contains(w) <==> ((w == here && lookup(
                    trie@,
                    here,
                ) == Some(true)) || exists|d: int|
                    0 <= d < 8 && #[trigger] found_words(g, mark(v, p), trie@, here, step(p, d)).contains(w))
        }),
        lookup(trie@, prefix.push(letter_at(g, p))) is None ==> found_words(g, v, trie@, prefix, p)
            =~= Set::<Seq<char>>::empty(),
{
    let here = prefix.push(letter_at(g, p));
    lemma_mark_flags(g, v, p, p);
    assert forall|w: Seq<char>|
        #[trigger] found_words(g, v, trie@, prefix, p).contains(w) <==> ((w == here && lookup(
            trie@,
            here,
        ) == Some(true)) || exists|d: int|
            0 <= d < 8 && #[trigger] found_words(g, mark(v, p), trie@, here, step(p, d)).contains(w)) by {
        if found_words(g, v, trie@, prefix, p).contains(w) {
            let ext = choose|ext: Seq<Coord>| #[trigger] is_walk_from(g, v, p, ext) && w == prefix + spells(g, ext);
            if ext.len() == 1 {
                assert(ext =~= seq![p]);
                lemma_walk_single(g, v, p);
                assert(w =~= here);
            } else {
                let k = lemma_walk_split(g, v, p, ext);
                let rest = ext.drop_first();
                assert(w =~= here + spells(g, rest));
                assert(is_walk_from(g, mark(v, p), step(p, k), rest));
                assert(found_words(g, mark(v, p), trie@, here, step(p, k)).contains(w));
            }
        }
        if w == here && lookup(trie@, here) == Some(true) {
            lemma_walk_single(g, v, p);
            assert(w =~= prefix + spells(g, seq![p]));
        }
        if exists|d: int| 0 <= d < 8 && #[trigger] found_words(g, mark(v, p), trie@, here, step(p, d)).contains(w) {
            let d = choose|d: int| 0 <= d < 8 && #[trigger] found_words(g, mark(v, p), trie@, here, step(p, d)).contains(w);
            let rest = choose|ext: Seq<Coord>|
                #[trigger] is_walk_from(g, mark(v, p), step(p, d), ext) && w == here + spells(g, ext);
            lemma_walk_cons(g, v, p, d, rest);
            assert(w =~= prefix + spells(g, seq![p] + rest));
        }
    }
    if lookup(trie@, here) is None {
        assert forall|w: Seq<char>| !found_words(g, v, trie@, prefix, p).contains(w) by {
            if found_words(g, v, trie@, prefix, p).contains(w) {
                let ext = choose|ext: Seq<Coord>| #[trigger] is_walk_from(g, v, p, ext) && w == prefix + spells(g, ext);
                if ext.len() == 1 {
                    assert(ext =~= seq![p]);
                    lemma_walk_single(g, v, p);
                    assert(w =~= here);
                } else {
                    let k = lemma_walk_split(g, v, p, ext);
                    let rest = ext.drop_first();
                    assert(w =~= here + spells(g, rest));
                    trie.lemma_no_prefix(here, spells(g, rest));
                }
            }
        }
    }
}

/// A path that continues `base + [p]` with a walk from a neighbour of `p`
/// avoiding `p` continues `base` with a walk from `p`.
proof fn lemma_extends_cons(
    g: Seq<Seq<char>>,
    v: Seq<Seq<bool>>,
    p: Coord,
    k: int,
    prefix: Seq<char>,
    base: Seq<Coord>,
    w: Seq<char>,
    path: Seq<Coord>,
)
    requires
        is_grid(g),
        same_shape(v, g),
        in_bounds(p, rows(g), cols(g)),
        !is_marked(v, p),
        0 <= k < 8,
        extends_walk(g, mark(v, p), step(p, k), prefix.push(letter_at(g, p)), base.push(p), w, path),
    ensures
        extends_walk(g, v, p, prefix, base, w, path),
{
    let n = base.len() as int;
    let here = prefix.push(letter_at(g, p));
    let rest = path.subrange(n + 1, path.len() as int);
    let ext = path.subrange(n, path.len() as int);
    assert(path.subrange(0, n + 1) == base.push(p));
    assert(is_walk_from(g, mark(v, p), step(p, k), rest));
    assert(w == here + spells(g, rest));
    assert(path[n] == p) by {
        assert(path.subrange(0, n + 1)[n] == path[n]);
    }
    assert(ext =~= seq![p] + rest);
    assert(path.subrange(0, n) =~= base) by {
        assert(path.subrange(0, n) =~= path.subrange(0, n + 1).subrange(0, n));
        assert(base.push(p).subrange(0, n) =~= base);
    }
    lemma_walk_cons(g, v, p, k, rest);
    assert(w =~= prefix + spells(g, ext));
}

/// `m` maps exactly the dictionary words that some simple path of the grid
/// spells, each to one such path.
pub open spec fn is_candidate_map(g: Seq<Seq<char>>, dict: Map<Seq<char>, bool>, m: Map<Seq<char>, Seq<Coord>>) -> bool {
    &&& forall|w: Seq<char>| #[trigger] m.contains_key(w) <==> reachable_words(g, dict).contains(w)
    &&& forall|w: Seq<char>| #[trigger] m.contains_key(w) ==> is_candidate(g, w, m[w])
}

/// `sol` holds `n` dictionary words, each with a simple path of the grid that
/// spells it, and the paths cover every cell of the grid exactly once.
pub open spec fn is_solution(g: Seq<Seq<char>>, dict: Map<Seq<char>, bool>, sol: Candidates, n: int) -> bool {
    &&& sol.wf()
    &&& sol.entries@.len() == n
    &&& forall|i: int|
        0 <= i < n ==> reachable_words(g, dict).contains(#[trigger] sol.key(i)) && is_candidate(
            g,
            sol.key(i),
            sol.path(i),
        )
    &&& forall|i: int, j: int|
        0 <= i < n && 0 <= j < n && i != j ==> !paths_overlap(#[trigger] sol.path(i), #[trigger] sol.path(j))
    &&& forall|c: Coord|
        in_bounds(c, rows(g), cols(g)) ==> exists|i: int, k: int|
            0 <= i < n && 0 <= k < sol.path(i).len() && #[trigger] sol.path(i)[k] == c
}

impl Strands {
    /// A puzzle whose grid rows are the lines of `input`, one letter per
    /// character, to be solved with `answers` words.
    pub fn new(input: String, answers: usize) -> (r: Self)
        ensures
            r.grid() == lines_of(input@),
            r.num_answers == answers,
    {
        let letters = chars_of(input.as_str());
        let rows = lines(&letters);
        let r = Strands { puzzle: rows, num_answers: answers };
        proof {
            assert(r.grid() =~= lines_of(input@)) by {
                assert forall|i: int| 0 <= i < r.grid().len() implies #[trigger] r.grid()[i] == lines_of(input@)[i] by {
                    assert(crate::text::texts_of(rows@)[i] == rows@[i]@);
                }
            }
        }
        r
    }

    /// Whether the grid has at least one row, all rows as long as the first,
    /// and extents that fit a signed coordinate.
    pub fn is_valid_grid(&self) -> (r: bool)
        ensures
            r == is_grid(self.grid()),
    {
        let ghost g = self.grid();
        let n = self.puzzle.len();
        if n == 0 {
            return false;
        }
        let width = self.puzzle[0].len();
        proof {
            assert(g[0] == self.puzzle@[0]@);
        }
        if n > isize::MAX as usize || width > isize::MAX as usize {
            return false;
        }
        let mut i: usize = 0;
        while i < n
            invariant
                g == self.grid(),
                n == g.len(),
                width == g[0].len(),
                i <= n,
                forall|k: int| 0 <= k < i ==> (#[trigger] g[k]).len() == width,
            decreases n - i,
        {
            proof {
                assert(g[i as int] == self.puzzle@[i as int]@);
            }
            if self.puzzle[i].len() != width {
                return false;
            }
            i += 1;
        }
        true
    }

    /// Records every complete word of `trie` that reads `guess_word`
    /// followed by the letters of a walk from `start` through cells not yet
    /// `visited`, with the path `guess_coords` followed by that walk. A word
    /// found again replaces the path recorded for it.
    pub fn recurse_find_words(
        puzzle: &Vec<Vec<char>>,
        trie: &Trie,
        start: Coord,
        visited: &mut Vec<Vec<bool>>,
        guess_word: &mut String,
        guess_coords: &mut Vec<Coord>,
        result: &mut Candidates,
    )
        requires
            is_grid(grid_of(puzzle@)),
            same_shape(marks_of(old(visited)@), grid_of(puzzle@)),
            trie.wf(),
            old(result).wf(),
        ensures
            marks_of(final(visited)@) == marks_of(old(visited)@),
            final(guess_word)@ == old(guess_word)@,
            final(guess_coords)@ == old(guess_coords)@,
            final(result).wf(),
            forall|w: Seq<char>|
                #[trigger] final(result).as_map().contains_key(w) <==> (old(result).as_map().contains_key(w)
                    || found_words(
                    grid_of(puzzle@),
                    marks_of(old(visited)@),
                    trie@,
                    old(guess_word)@,
                    start,
                ).contains(w)),
            forall|w: Seq<char>| #[trigger]
                final(result).as_map().contains_key(w) ==> if found_words(
                    grid_of(puzzle@),
                    marks_of(old(visited)@),
                    trie@,
                    old(guess_word)@,
                    start,
                ).contains(w) {
                    extends_walk(
                        grid_of(puzzle@),
                        marks_of(old(visited)@),
                        start,
                        old(guess_word)@,
                        old(guess_coords)@,
                        w,
                        final(result).as_map()[w],
                    )
                } else {
                    final(result).as_map()[w] == old(result).as_map()[w]
                },
        decreases unmarked(marks_of(old(visited)@)),
    {
        let ghost g = grid_of(puzzle@);
        let ghost v = marks_of(visited@);
        let ghost gw = guess_word@;
        let ghost gc = guess_coords@;
        let ghost found = found_words(g, v, trie@, gw, start);
        let row = start.0;
        let col = start.1;
        proof {
            assert(g[0] == puzzle@[0]@);
        }
        if row < 0 || col < 0 || row >= puzzle.len() as isize || col >= puzzle[0].len() as isize {
            proof {
                assert forall|w: Seq<char>| !found.contains(w) by {
                    if found.contains(w) {
                        let ext = choose|ext: Seq<Coord>| #[trigger] is_walk_from(g, v, start, ext) && w == gw + spells(g, ext);
                        assert(in_bounds(ext[0], rows(g), cols(g)));
                    }
                }
            }
            return;
        }
        let r = row as usize;
        let c = col as usize;
        proof {
            assert(g[r as int] == puzzle@[r as int]@);
            assert(g[r as int].len() == g[0].len());
            assert(v[r as int] == visited@[r as int]@);
        }
        if visited[r][c] {
            proof {
                assert forall|w: Seq<char>| !found.contains(w) by {
                    if found.contains(w) {
                        let ext = choose|ext: Seq<Coord>| #[trigger] is_walk_from(g, v, start, ext) && w == gw + spells(g, ext);
                        assert(!is_marked(v, ext[0]));
                    }
                }
            }
            return;
        }
        let ghost r0 = *result;
        let ghost here = gw.push(letter_at(g, start));
        let ghost gc1 = gc.push(start);
        let ghost v1 = mark(v, start);
        guess_word.push(puzzle[r][c]);
        guess_coords.push((row, col));
        visited[r][c] = true;
        proof {
            assert(marks_of(visited@) =~= v1);
            lemma_found_step(g, v, *trie, gw, start);
            lemma_mark_flags(g, v, start, start);
            lemma_mark_decreases(v, start);
        }
        match trie.search(guess_word) {
            Some((_, end)) => {
                if end {
                    let path = copy_path(guess_coords);
                    result.insert(guess_word.clone(), path);
                    proof {
                        lemma_walk_single(g, v, start);
                        assert(gc1.subrange(gc.len() as int, gc1.len() as int) =~= seq![start]);
                        assert(gc1.subrange(0, gc.len() as int) =~= gc);
                        assert(here =~= gw + spells(g, seq![start]));
                    }
                }
                let mut k: usize = 0;
                while k < 8
                    invariant
                        is_grid(g),
                        same_shape(v, g),
                        same_shape(v1, g),
                        in_bounds(start, rows(g), cols(g)),
                        !is_marked(v, start),
                        g == grid_of(puzzle@),
                        trie.wf(),
                        k <= 8,
                        v == marks_of(old(visited)@),
                        v1 == mark(v, start),
                        here == gw.push(letter_at(g, start)),
                        gc1 == gc.push(start),
                        row == start.0,
                        col == start.1,
                        marks_of(visited@) == v1,
                        guess_word@ == here,
                        guess_coords@ == gc1,
                        result.wf(),
                        unmarked(v1) < unmarked(v),
                        forall|w: Seq<char>|
                            #[trigger] result.as_map().contains_key(w) <==> (r0.as_map().contains_key(w)
                                || (w == here && lookup(trie@, here) == Some(true)) || exists|d: int|
                                0 <= d < k && #[trigger] found_words(g, v1, trie@, here, step(start, d)).contains(w)),
                        forall|w: Seq<char>| #[trigger]
                            result.as_map().contains_key(w) ==> if (w == here && lookup(trie@, here) == Some(true))
                                || exists|d: int|
                                0 <= d < k && #[trigger] found_words(g, v1, trie@, here, step(start, d)).contains(w) {
                                extends_walk(g, v, start, gw, gc, w, result.as_map()[w])
                            } else {
                                result.as_map()[w] == r0.as_map()[w]
                            },
                    decreases 8 - k,
                {
                    let d = offset_at(k);
                    assert(-1 <= d.0 <= 1 && -1 <= d.1 <= 1);
                    let next = (row + d.0, col + d.1);
                    Self::recurse_find_words(puzzle, trie, next, visited, guess_word, guess_coords, result);
                    proof {
                        assert(next == step(start, k as int));
                        assert forall|w: Seq<char>|
                            #[trigger] result.as_map().contains_key(w) && found_words(g, v1, trie@, here, next).contains(w)
                            implies extends_walk(g, v, start, gw, gc, w, result.as_map()[w]) by {
                            assert(extends_walk(g, v1, next, here, gc1, w, result.as_map()[w]));
                            lemma_extends_cons(g, v, start, k as int, gw, gc, w, result.as_map()[w]);
                        }
                    }
                    k += 1;
                }
            },
            None => {},
        }
        proof {
            assert(marks_of(visited@) == v1);
        }
        visited[r][c] = false;
        guess_word.pop();
        guess_coords.pop();
        proof {
            assert(marks_of(visited@) =~= v) by {
                assert forall|i: int| 0 <= i < v.len() implies #[trigger] marks_of(visited@)[i] =~= v[i] by {
                    assert(marks_of(visited@)[i] == visited@[i]@);
                    if i != r {
                        assert(v1[i] == v[i]);
                    }
                }
            }
            assert(guess_word@ =~= gw);
            assert(guess_coords@ =~= gc);
        }
    }

    /// The grid's letters.
    pub open spec fn grid(self) -> Seq<Seq<char>> {
        grid_of(self.puzzle@)
    }

    /// Every complete word of `trie` that some simple path of the grid
    /// spells, each with one such path. Words come in the order in which a
    /// depth-first walk from each cell, in row-major order, first finds them.
    pub fn find_words(&self, trie: &Trie) -> (r: Candidates)
        requires
            is_grid(self.grid()),
            trie.wf(),
        ensures
            r.wf(),
            forall|w: Seq<char>|
                #[trigger] r.as_map().contains_key(w) <==> reachable_words(self.grid(), trie@).contains(w),
            forall|i: int|
                0 <= i < r.entries@.len() ==> #[trigger] is_candidate(self.grid(), r.key(i), r.path(i)),
    {
        let ghost g = self.grid();
        let ghost f = blank(g);
        let rows = self.puzzle.len();
        let cols = self.puzzle[0].len();
        proof {
            assert(g[0] == self.puzzle@[0]@);
            assert(same_shape(f, g)) by {
                assert forall|i: int| 0 <= i < f.len() implies (#[trigger] f[i]).len() == g[i].len() by {}
            }
        }
        let mut result = Candidates::new();
        let mut r: usize = 0;
        while r < rows
            invariant
                g == self.grid(),
                is_grid(g),
                same_shape(f, g),
                f == blank(g),
                trie.wf(),
                rows == g.len(),
                cols == g[0].len(),
                r <= rows,
                result.wf(),
                forall|w: Seq<char>|
                    #[trigger] result.as_map().contains_key(w) <==> exists|s: Coord|
                        in_bounds(s, rows as int, cols as int) && s.0 < r && #[trigger] found_words(
                            g,
                            f,
                            trie@,
                            Seq::empty(),
                            s,
                        ).contains(w),
                forall|w: Seq<char>|
                    #[trigger] result.as_map().contains_key(w) ==> is_candidate(g, w, result.as_map()[w]),
            decreases rows - r,
        {
            let mut c: usize = 0;
            while c < cols
                invariant
                    g == self.grid(),
                    is_grid(g),
                    same_shape(f, g),
                    f == blank(g),
                    trie.wf(),
                    rows == g.len(),
                    cols == g[0].len(),
                    r < rows,
                    c <= cols,
                    result.wf(),
                    forall|w: Seq<char>|
                        #[trigger] result.as_map().contains_key(w) <==> exists|s: Coord|
                            in_bounds(s, rows as int, cols as int) && (s.0 < r || (s.0 == r && s.1 < c))
                                && #[trigger] found_words(g, f, trie@, Seq::empty(), s).contains(w),
                    forall|w: Seq<char>|
                        #[trigger] result.as_map().contains_key(w) ==> is_candidate(g, w, result.as_map()[w]),
                decreases cols - c,
            {
                let mut visited = blank_mask(rows, cols);
                let mut guess_word = String::new();
                let mut guess_coords: Vec<Coord> = Vec::new();
                let start: Coord = (r as isize, c as isize);
                proof {
                    assert(marks_of(visited@) =~= f) by {
                        assert forall|i: int| 0 <= i < f.len() implies #[trigger] marks_of(visited@)[i] =~= f[i] by {
                            assert(g[i].len() == g[0].len());
                        }
                    }
                }
                Self::recurse_find_words(
                    &self.puzzle,
                    trie,
                    start,
                    &mut visited,
                    &mut guess_word,
                    &mut guess_coords,
                    &mut result,
                );
                proof {
                    assert forall|w: Seq<char>| #[trigger] result.as_map().contains_key(w) implies is_candidate(g, w, result.as_map()[w]) by {
                        if found_words(g, f, trie@, Seq::empty(), start).contains(w) {
                            let path = result.as_map()[w];
                            assert(path.subrange(0, path.len() as int) =~= path);
                            assert(Seq::<char>::empty() + spells(g, path) =~= spells(g, path));
                        }
                    }
                    assert forall|w: Seq<char>|
                        #[trigger] result.as_map().contains_key(w) <==> exists|s: Coord|
                            in_bounds(s, rows as int, cols as int) && (s.0 < r || (s.0 == r && s.1 < c + 1))
                                && #[trigger] found_words(g, f, trie@, Seq::empty(), s).contains(w) by {
                        if found_words(g, f, trie@, Seq::empty(), start).contains(w) {
                            assert(in_bounds(start, rows as int, cols as int));
                        }
                    }
                }
                c += 1;
            }
            r += 1;
        }
        proof {
            assert forall|w: Seq<char>|
                #[trigger] result.as_map().contains_key(w) <==> reachable_words(g, trie@).contains(w) by {
                if result.as_map().contains_key(w) {
                    assert(is_candidate(g, w, result.as_map()[w]));
                }
                if reachable_words(g, trie@).contains(w) {
                    let path = choose|path: Seq<Coord>| #[trigger] is_candidate(g, w, path);
                    let s = path[0];
                    assert(in_bounds(path[0], rows as int, cols as int));
                    assert forall|i: int| 0 <= i < path.len() implies !is_marked(f, #[trigger] path[i]) by {
                        assert(in_bounds(path[i], rows as int, cols as int));
                        assert(g[path[i].0 as int].len() == g[0].len());
                    }
                    assert(is_walk_from(g, f, s, path));
                    assert(w =~= Seq::<char>::empty() + spells(g, path));
                    assert(found_words(g, f, trie@, Seq::empty(), s).contains(w));
                }
            }
            assert forall|i: int| 0 <= i < result.entries@.len() implies #[trigger] is_candidate(g, result.key(i), result.path(i)) by {
                result.lemma_key_at(i);
            }
        }
        result
    }

    /// Whether the paths stored for `a` and `b` share a cell.
    pub fn has_overlap(candidates: &Candidates, a: &String, b: &String) -> (r: bool)
        requires
            candidates.wf(),
            candidates.as_map().contains_key(a@),
            candidates.as_map().contains_key(b@),
        ensures
            r == paths_overlap(candidates.as_map()[a@], candidates.as_map()[b@]),
    {
        let pa = match candidates.get(a) {
            Some(p) => p,
            None => {
                return false;
            },
        };
        let pb = match candidates.get(b) {
            Some(p) => p,
            None => {
                return false;
            },
        };
        let mut i: usize = 0;
        while i < pa.len()
            invariant
                i <= pa@.len(),
                pa@ == candidates.as_map()[a@],
                pb@ == candidates.as_map()[b@],
                forall|x: int, y: int| 0 <= x < i && 0 <= y < pb@.len() ==> #[trigger] pa@[x] != #[trigger] pb@[y],
            decreases pa@.len() - i,
        {
            let mut j: usize = 0;
            while j < pb.len()
                invariant
                    i < pa@.len(),
                    j <= pb@.len(),
                    pa@ == candidates.as_map()[a@],
                    pb@ == candidates.as_map()[b@],
                    forall|x: int, y: int| 0 <= x < i && 0 <= y < pb@.len() ==> #[trigger] pa@[x] != #[trigger] pb@[y],
                    forall|y: int| 0 <= y < j ==> pa@[i as int] != #[trigger] pb@[y],
                decreases pb@.len() - j,
            {
                if pa[i].0 == pb[j].0 && pa[i].1 == pb[j].1 {
                    proof {
                        assert(pa@[i as int] == pb@[j as int]);
                    }
                    return true;
                }
                j += 1;
            }
            i += 1;
        }
        false
    }

    /// Whether `w` is one of `words`.
    fn contains_word(words: &Vec<String>, w: &String) -> (r: bool)
        ensures
            r == words_of(words@).contains(w@),
    {
        let mut i: usize = 0;
        while i < words.len()
            invariant
                i <= words@.len(),
                forall|k: int| 0 <= k < i ==> #[trigger] words@[k]@ != w@,
            decreases words@.len() - i,
        {
            if words[i] == *w {
                proof {
                    assert(words_of(words@)[i as int] == w@);
                }
                return true;
            }
            i += 1;
        }
        proof {
            if words_of(words@).contains(w@) {
                let k = choose|k: int| 0 <= k < words_of(words@).len() && words_of(words@)[k] == w@;
                assert(words@[k]@ == w@);
            }
        }
        false
    }

    /// Whether the paths of `solution` lie in the grid and together reach
    /// every cell of it.
    pub fn covers_grid(puzzle: &Vec<Vec<char>>, solution: &Vec<String>, candidates: &Candidates) -> (r: bool)
        requires
            is_grid(grid_of(puzzle@)),
            candidates.wf(),
            forall|i: int| 0 <= i < solution@.len() ==> candidates.as_map().contains_key(#[trigger] solution@[i]@),
        ensures
            r == covers(candidates.as_map(), words_of(solution@), rows(grid_of(puzzle@)), cols(grid_of(puzzle@))),
    {
        let ghost g = grid_of(puzzle@);
        let ghost m = candidates.as_map();
        let ghost sol = words_of(solution@);
        let n_rows = puzzle.len();
        let n_cols = puzzle[0].len();
        proof {
            assert(g[0] == puzzle@[0]@);
        }
        let mut used = blank_mask(n_rows, n_cols);
        let mut i: usize = 0;
        while i < solution.len()
            invariant
                n_rows == rows(g),
                g == grid_of(puzzle@),
                n_rows <= isize::MAX,
                n_cols <= isize::MAX,
                n_cols == cols(g),
                sol == words_of(solution@),
                m == candidates.as_map(),
                candidates.wf(),
                forall|i: int| 0 <= i < solution@.len() ==> m.contains_key(#[trigger] solution@[i]@),
                i <= solution@.len(),
                marks_of(used@).len() == n_rows,
                forall|x: int| 0 <= x < n_rows ==> (#[trigger] marks_of(used@)[x]).len() == n_cols,
                forall|a: int, k: int|
                    0 <= a < i && 0 <= k < m[sol[a]].len() ==> in_bounds(#[trigger] m[sol[a]][k], n_rows as int, n_cols as int),
                forall|c: Coord|
                    in_bounds(c, n_rows as int, n_cols as int) ==> (#[trigger] is_marked(marks_of(used@), c) <==> exists|a: int, k: int|
                        0 <= a < i && 0 <= k < m[sol[a]].len() && #[trigger] m[sol[a]][k] == c),
            decreases solution@.len() - i,
        {
            let path = match candidates.get(&solution[i]) {
                Some(p) => p,
                None => {
                    proof {
                        assert(m.contains_key(solution@[i as int]@));
                    }
                    return false;
                },
            };
            proof {
                assert(sol[i as int] == solution@[i as int]@);
            }
            let mut k: usize = 0;
            while k < path.len()
                invariant
                    n_rows == rows(g),
                g == grid_of(puzzle@),
                n_rows <= isize::MAX,
                n_cols <= isize::MAX,
                    n_cols == cols(g),
                    sol == words_of(solution@),
                    m == candidates.as_map(),
                    i < solution@.len(),
                    path@ == m[sol[i as int]],
                    k <= path@.len(),
                    marks_of(used@).len() == n_rows,
                    forall|x: int| 0 <= x < n_rows ==> (#[trigger] marks_of(used@)[x]).len() == n_cols,
                    forall|a: int, k: int|
                        0 <= a < i && 0 <= k < m[sol[a]].len() ==> in_bounds(#[trigger] m[sol[a]][k], n_rows as int, n_cols as int),
                    forall|x: int| 0 <= x < k ==> in_bounds(#[trigger] path@[x], n_rows as int, n_cols as int),
                    forall|c: Coord|
                        in_bounds(c, n_rows as int, n_cols as int) ==> (#[trigger] is_marked(marks_of(used@), c) <==> (exists|a: int, k: int|
                            0 <= a < i && 0 <= k < m[sol[a]].len() && #[trigger] m[sol[a]][k] == c) || exists|x: int| 0 <= x < k && #[trigger] path@[x] == c),
                decreases path@.len() - k,
            {
                let c = path[k];
                if c.0 < 0 || c.1 < 0 || c.0 >= n_rows as isize || c.1 >= n_cols as isize {
                    proof {
                        assert(!in_bounds(m[sol[i as int]][k as int], n_rows as int, n_cols as int));
                    }
                    return false;
                }
                let ghost before = marks_of(used@);
                proof {
                    assert(before[c.0 as int] == used@[c.0 as int]@);
                }
                used[c.0 as usize][c.1 as usize] = true;
                proof {
                    assert(marks_of(used@) =~= before.update(c.0 as int, before[c.0 as int].update(c.1 as int, true)));
                    assert forall|x: int| 0 <= x < n_rows implies (#[trigger] marks_of(used@)[x]).len() == n_cols by {}
                    assert forall|d: Coord|
                        in_bounds(d, n_rows as int, n_cols as int) implies (#[trigger] is_marked(marks_of(used@), d) <==> (exists|a: int, k: int|
                            0 <= a < i && 0 <= k < m[sol[a]].len() && #[trigger] m[sol[a]][k] == d) || exists|x: int| 0 <= x < k + 1 && #[trigger] path@[x] == d) by {
                        if d == c {
                            assert(path@[k as int] == d);
                        } else {
                            assert(is_marked(marks_of(used@), d) == is_marked(before, d));
                        }
                    }
                }
                k += 1;
            }
            proof {
                assert forall|c: Coord|
                    in_bounds(c, n_rows as int, n_cols as int) implies (#[trigger] is_marked(marks_of(used@), c) <==> exists|a: int, k: int|
                        0 <= a < i + 1 && 0 <= k < m[sol[a]].len() && #[trigger] m[sol[a]][k] == c) by {
                    if exists|x: int| 0 <= x < path@.len() && #[trigger] path@[x] == c {
                        let x = choose|x: int| 0 <= x < path@.len() && #[trigger] path@[x] == c;
                        assert(m[sol[i as int]][x] == c);
                    }
                }
            }
            i += 1;
        }
        proof {
            assert forall|c: Coord| in_bounds(c, n_rows as int, n_cols as int) implies (#[trigger] is_covered(m, sol, c) <==> is_marked(marks_of(used@), c)) by {}
        }
        let mut r: usize = 0;
        while r < n_rows
            invariant
                n_rows == rows(g),
                g == grid_of(puzzle@),
                n_rows <= isize::MAX,
                n_cols <= isize::MAX,
                n_cols == cols(g),
                sol == words_of(solution@),
                m == candidates.as_map(),
                marks_of(used@).len() == n_rows,
                forall|x: int| 0 <= x < n_rows ==> (#[trigger] marks_of(used@)[x]).len() == n_cols,
                forall|a: int, k: int|
                    0 <= a < sol.len() && 0 <= k < m[sol[a]].len() ==> in_bounds(#[trigger] m[sol[a]][k], n_rows as int, n_cols as int),
                forall|c: Coord| in_bounds(c, n_rows as int, n_cols as int) ==> (#[trigger] is_covered(m, sol, c) <==> is_marked(marks_of(used@), c)),
                r <= n_rows,
                forall|c: Coord| in_bounds(c, n_rows as int, n_cols as int) && c.0 < r ==> #[trigger] is_covered(m, sol, c),
            decreases n_rows - r,
        {
            let mut c: usize = 0;
            while c < n_cols
                invariant
                    n_rows == rows(g),
                g == grid_of(puzzle@),
                n_rows <= isize::MAX,
                n_cols <= isize::MAX,
                    n_cols == cols(g),
                    sol == words_of(solution@),
                    m == candidates.as_map(),
                    marks_of(used@).len() == n_rows,
                    forall|x: int| 0 <= x < n_rows ==> (#[trigger] marks_of(used@)[x]).len() == n_cols,
                    forall|c: Coord| in_bounds(c, n_rows as int, n_cols as int) ==> (#[trigger] is_covered(m, sol, c) <==> is_marked(marks_of(used@), c)),
                    r < n_rows,
                    c <= n_cols,
                    forall|d: Coord| in_bounds(d, n_rows as int, n_cols as int) && (d.0 < r || (d.0 == r && d.1 < c)) ==> #[trigger] is_covered(m, sol, d),
                decreases n_cols - c,
            {
                proof {
                    assert(marks_of(used@)[r as int] == used@[r as int]@);
                }
                if !used[r][c] {
                    proof {
                        let d = (r as isize, c as isize);
                        assert(is_marked(marks_of(used@), d) == used@[r as int]@[c as int]);
                        assert(!is_covered(m, sol, d));
                    }
                    return false;
                }
                c += 1;
            }
            r += 1;
        }
        true
    }

    /// Depth-first search for words to add to `solution` so that it holds
    /// `num_answers` words whose paths cover the grid exactly once. Words are
    /// tried in the order of `candidates`; the first cover found is kept in
    /// `solution` and `true` returned. Otherwise `solution` is left as it was.
    /// `depth` counts the words chosen so far, plus one.
    pub fn recurse_find_solution(
        puzzle: &Vec<Vec<char>>,
        solution: &mut Vec<String>,
        candidates: &Candidates,
        num_answers: usize,
        depth: usize,
    ) -> (found: bool)
        requires
            is_grid(grid_of(puzzle@)),
            candidates.wf(),
            is_partial(candidates.as_map(), words_of(old(solution)@)),
            old(solution)@.len() <= num_answers,
            depth == old(solution)@.len() + 1,
        ensures
            found == has_completion(
                candidates.as_map(),
                words_of(old(solution)@),
                num_answers as int,
                rows(grid_of(puzzle@)),
                cols(grid_of(puzzle@)),
            ),
            found ==> final(solution)@.len() == num_answers && old(solution)@.is_prefix_of(final(solution)@)
                && is_exact_cover(
                candidates.as_map(),
                words_of(final(solution)@),
                rows(grid_of(puzzle@)),
                cols(grid_of(puzzle@)),
            ),
            !found ==> final(solution)@ == old(solution)@,
        decreases num_answers - old(solution)@.len(),
    {
        let ghost g = grid_of(puzzle@);
        let ghost m = candidates.as_map();
        let ghost sol = words_of(solution@);
        let ghost n = num_answers as int;
        if depth > num_answers {
            proof {
                lemma_completion_full(m, sol, n, rows(g), cols(g));
                lemma_partial_keys(m, solution@);
            }
            let r = Self::covers_grid(puzzle, solution, candidates);
            proof {
                assert(solution@.is_prefix_of(solution@));
            }
            return r;
        }
        let mut j: usize = 0;
        while j < candidates.len()
            invariant
                g == grid_of(puzzle@),
                m == candidates.as_map(),
                is_grid(g),
                candidates.wf(),
                solution@ == old(solution)@,
                sol == words_of(solution@),
                is_partial(m, sol),
                sol.len() < n,
                n == num_answers,
                depth == sol.len() + 1,
                j <= candidates.entries@.len(),
                forall|i: int| 0 <= i < j ==> !has_completion(m, sol.push(#[trigger] candidates.key(i)), n, rows(g), cols(g)),
            decreases candidates.entries@.len() - j,
        {
            let w = &candidates.entries[j].0;
            proof {
                candidates.lemma_key_at(j as int);
            }
            if Self::contains_word(solution, w) {
                proof {
                    lemma_no_completion_push(m, sol, w@, n, rows(g), cols(g));
                }
            } else {
                let mut overlap_found = false;
                let mut t: usize = 0;
                while t < solution.len()
                    invariant
                        m == candidates.as_map(),
                        candidates.wf(),
                        sol == words_of(solution@),
                        is_partial(m, sol),
                        m.contains_key(w@),
                        t <= solution@.len(),
                        overlap_found == exists|u: int| 0 <= u < t && paths_overlap(m[w@], m[#[trigger] sol[u]]),
                    decreases solution@.len() - t,
                {
                    proof {
                        assert(sol[t as int] == solution@[t as int]@);
                    }
                    if Self::has_overlap(candidates, w, &solution[t]) {
                        overlap_found = true;
                    }
                    t += 1;
                }
                if overlap_found {
                    proof {
                        lemma_no_completion_push(m, sol, w@, n, rows(g), cols(g));
                    }
                } else {
                    proof {
                        lemma_partial_push(m, sol, w@);
                    }
                    solution.push(w.clone());
                    proof {
                        lemma_words_of_push(old(solution)@, *w);
                    }
                    // The choice of the last word is checked at once rather than one
                    // level down, so that `depth` never passes `num_answers`.
                    let done = if depth < num_answers {
                        Self::recurse_find_solution(puzzle, solution, candidates, num_answers, depth + 1)
                    } else {
                        proof {
                            lemma_completion_full(m, sol.push(w@), n, rows(g), cols(g));
                            lemma_partial_keys(m, solution@);
                        }
                        let r = Self::covers_grid(puzzle, solution, candidates);
                        proof {
                            assert(solution@.is_prefix_of(solution@));
                        }
                        r
                    };
                    if done {
                        proof {
                            assert(old(solution)@ =~= solution@.subrange(0, old(solution)@.len() as int)) by {
                                assert(solution@.subrange(0, old(solution)@.len() as int) =~= old(solution)@.push(*w).subrange(0, old(solution)@.len() as int));
                            }
                        }
                        return true;
                    }
                    solution.pop();
                    proof {
                        assert(solution@ =~= old(solution)@);
                    }
                }
            }
            j += 1;
        }
        proof {
            if has_completion(m, sol, n, rows(g), cols(g)) {
                let w = lemma_completion_step(m, sol, n, rows(g), cols(g));
                let i = candidates.index_of(w);
                candidates.lemma_key_at(i);
                assert(candidates.key(i) == w);
            }
        }
        false
    }

    /// Finds the candidate words of the grid, then the first choice of
    /// `num_answers` of them that covers the grid exactly once, and returns
    /// those words with their paths; `None` when the candidates admit no such
    /// choice.
    pub fn solve(&self, trie: &Trie) -> (r: Option<Candidates>)
        requires
            is_grid(self.grid()),
            trie.wf(),
        ensures
            match r {
                Some(sol) => is_solution(self.grid(), trie@, sol, self.num_answers as int),
                None => exists|m: Map<Seq<char>, Seq<Coord>>|
                    is_candidate_map(self.grid(), trie@, m) && !#[trigger] has_completion(
                        m,
                        Seq::empty(),
                        self.num_answers as int,
                        rows(self.grid()),
                        cols(self.grid()),
                    ),
            },
            reachable_words(self.grid(), trie@) =~= Set::<Seq<char>>::empty() && self.num_answers >= 1
                ==> r is None,
    {
        let ghost g = self.grid();
        let candidates = self.find_words(trie);
        let ghost m = candidates.as_map();
        proof {
            assert forall|w: Seq<char>| #[trigger] m.contains_key(w) implies is_candidate(g, w, m[w]) by {
                let i = candidates.index_of(w);
                candidates.lemma_key_at(i);
            }
        }
        let mut solution: Vec<String> = Vec::new();
        proof {
            assert(words_of(solution@) =~= Seq::<Seq<char>>::empty());
        }
        let found = Self::recurse_find_solution(&self.puzzle, &mut solution, &candidates, self.num_answers, 1);
        if !found {
            return None;
        }
        let ghost sol = words_of(solution@);
        let mut result = Candidates::new();
        let mut i: usize = 0;
        while i < solution.len()
            invariant
                g == self.grid(),
                m == candidates.as_map(),
                candidates.wf(),
                sol == words_of(solution@),
                is_exact_cover(m, sol, rows(g), cols(g)),
                i <= solution@.len(),
                result.wf(),
                result.entries@.len() == i,
                forall|k: int| 0 <= k < i ==> #[trigger] result.key(k) == sol[k] && result.path(k) == m[sol[k]],
            decreases solution@.len() - i,
        {
            proof {
                assert(sol[i as int] == solution@[i as int]@);
            }
            let path = match candidates.get(&solution[i]) {
                Some(p) => copy_path(p),
                None => {
                    proof {
                        assert(m.contains_key(sol[i as int]));
                    }
                    Vec::new()
                },
            };
            proof {
                if result.has_word(sol[i as int]) {
                    let k = choose|k: int| 0 <= k < result.entries@.len() && result.key(k) == sol[i as int];
                    assert(sol[k] != sol[i as int]);
                }
            }
            result.insert(solution[i].clone(), path);
            i += 1;
        }
        proof {
            let n = self.num_answers as int;
            assert forall|i: int| 0 <= i < n implies reachable_words(g, trie@).contains(#[trigger] result.key(i)) && is_candidate(
                g,
                result.key(i),
                result.path(i),
            ) by {
                assert(m.contains_key(sol[i]));
            }
            assert forall|i: int, j: int|
                0 <= i < n && 0 <= j < n && i != j implies !paths_overlap(#[trigger] result.path(i), #[trigger] result.path(j)) by {
                assert(result.key(i) == sol[i] && result.key(j) == sol[j]);
            }
            assert forall|c: Coord| in_bounds(c, rows(g), cols(g)) implies exists|i: int, k: int|
                0 <= i < n && 0 <= k < result.path(i).len() && #[trigger] result.path(i)[k] == c by {
                assert(is_covered(m, sol, c));
                let (i, k) = choose|i: int, k: int| 0 <= i < sol.len() && 0 <= k < m[sol[i]].len() && #[trigger] m[sol[i]][k] == c;
                assert(result.key(i) == sol[i]);
                assert(result.path(i)[k] == c);
            }
            if n >= 1 {
                assert(reachable_words(g, trie@).contains(result.key(0)));
            }
        }
        Some(result)
    }
}

} // verus!
