//! Words mapped to one grid path each.

use vstd::prelude::*;

verus! {

/// A grid coordinate, as `(row, column)`.
pub type Coord = (isize, isize);

/// A mapping from words to one coordinate path each. Entries keep the order
/// in which their words were first stored; storing a word again replaces its
/// path in place.
#[derive(Debug, PartialEq)]
pub struct Candidates {
    pub entries: Vec<(String, Vec<Coord>)>,
}

/// A copy of `p`.
pub fn copy_path(p: &Vec<Coord>) -> (r: Vec<Coord>)
    ensures
        r@ == p@,
{
    let mut r: Vec<Coord> = Vec::new();
    let mut i: usize = 0;
    while i < p.len()
        invariant
            i <= p@.len(),
            r@ == p@.subrange(0, i as int),
        decreases p@.len() - i,
    {
        r.push(p[i]);
        i += 1;
    }
    r
}

impl Candidates {
    /// The word of entry `i`.
    pub open spec fn key(self, i: int) -> Seq<char> {
        self.entries@[i].0@
    }

    /// The path of entry `i`.
    pub open spec fn path(self, i: int) -> Seq<Coord> {
        self.entries@[i].1@
    }

    /// No word is stored twice.
    pub open spec fn wf(self) -> bool {
        forall|i: int, j: int|
            0 <= i < j < self.entries@.len() ==> #[trigger] self.key(i) != #[trigger] self.key(j)
    }

    pub open spec fn has_word(self, w: Seq<char>) -> bool {
        exists|i: int| 0 <= i < self.entries@.len() && self.key(i) == w
    }

    /// The index of the entry for `w`.
    pub open spec fn index_of(self, w: Seq<char>) -> int {
        choose|i: int| 0 <= i < self.entries@.len() && self.key(i) == w
    }

    /// The stored mapping from words to paths.
    pub open spec fn as_map(self) -> Map<Seq<char>, Seq<Coord>> {
        Map::new(|w: Seq<char>| self.has_word(w), |w: Seq<char>| self.path(self.index_of(w)))
    }

    /// The word of entry `i` maps to the path of entry `i`.
    pub proof fn lemma_key_at(self, i: int)
        requires
            self.wf(),
            0 <= i < self.entries@.len(),
        ensures
            self.has_word(self.key(i)),
            self.index_of(self.key(i)) == i,
            self.as_map().contains_key(self.key(i)),
            self.as_map()[self.key(i)] == self.path(i),
    {
        let j = self.index_of(self.key(i));
        if i < j {
            assert(self.key(i) != self.key(j));
        } else if j < i {
            assert(self.key(j) != self.key(i));
        }
    }

    pub fn new() -> (r: Self)
        ensures
            r.wf(),
            r.entries@.len() == 0,
            r.as_map() == Map::<Seq<char>, Seq<Coord>>::empty(),
    {
        let r = Candidates { entries: Vec::new() };
        assert(r.as_map() =~= Map::<Seq<char>, Seq<Coord>>::empty());
        r
    }

    /// The index of the entry for `word`, if there is one.
    pub fn find(&self, word: &String) -> (r: Option<usize>)
        requires
            self.wf(),
        ensures
            match r {
                Some(i) => i < self.entries@.len() && self.key(i as int) == word@,
                None => !self.has_word(word@),
            },
    {
        let mut i: usize = 0;
        while i < self.entries.len()
            invariant
                i <= self.entries@.len(),
                forall|j: int| 0 <= j < i ==> #[trigger] self.key(j) != word@,
            decreases self.entries@.len() - i,
        {
            if self.entries[i].0 == *word {
                return Some(i);
            }
            i += 1;
        }
        None
    }

    /// Maps `word` to `path`, replacing any path stored for it before.
    pub fn insert(&mut self, word: String, path: Vec<Coord>)
        requires
            old(self).wf(),
        ensures
            final(self).wf(),
            final(self).as_map() == old(self).as_map().insert(word@, path@),
            forall|i: int|
                0 <= i < old(self).entries@.len() ==> #[trigger] final(self).key(i) == old(self).key(i),
            forall|i: int|
                0 <= i < old(self).entries@.len() && old(self).key(i) != word@ ==> #[trigger] final(self).path(i)
                    == old(self).path(i),
            old(self).has_word(word@) ==> final(self).entries@.len() == old(self).entries@.len(),
            !old(self).has_word(word@) ==> final(self).entries@.len() == old(self).entries@.len() + 1
                && final(self).key(old(self).entries@.len() as int) == word@
                && final(self).path(old(self).entries@.len() as int) == path@,
    {
        let ghost w = word@;
        let ghost p = path@;
        match self.find(&word) {
            Some(i) => {
                self.entries.set(i, (word, path));
                proof {
                    assert forall|j: int| 0 <= j < self.entries@.len() && j != i implies #[trigger] self.key(j) == old(self).key(j) && self.path(j) == old(self).path(j) by {}
                    let m = old(self).as_map().insert(w, p);
                    assert forall|v: Seq<char>| #[trigger] m.contains_key(v) == self.as_map().contains_key(v) && (m.contains_key(v) ==> m[v] == self.as_map()[v]) by {
                        if v == w {
                            self.lemma_key_at(i as int);
                        } else if old(self).has_word(v) {
                            let j = old(self).index_of(v);
                            old(self).lemma_key_at(j);
                            self.lemma_key_at(j);
                        } else if self.has_word(v) {
                            let j = self.index_of(v);
                            assert(old(self).key(j) == v);
                        }
                    }
                    assert(self.as_map() =~= m);
                }
            },
            None => {
                self.entries.push((word, path));
                proof {
                    let n = old(self).entries@.len() as int;
                    assert forall|j: int| 0 <= j < n implies #[trigger] self.key(j) == old(self).key(j) && self.path(j) == old(self).path(j) by {}
                    let m = old(self).as_map().insert(w, p);
                    assert forall|v: Seq<char>| #[trigger] m.contains_key(v) == self.as_map().contains_key(v) && (m.contains_key(v) ==> m[v] == self.as_map()[v]) by {
                        if v == w {
                            self.lemma_key_at(n);
                        } else if old(self).has_word(v) {
                            let j = old(self).index_of(v);
                            old(self).lemma_key_at(j);
                            self.lemma_key_at(j);
                        } else if self.has_word(v) {
                            let j = self.index_of(v);
                            assert(old(self).key(j) == v);
                        }
                    }
                    assert(self.as_map() =~= m);
                }
            },
        }
    }

    /// The path stored for `word`, if there is one.
    pub fn get(&self, word: &String) -> (r: Option<&Vec<Coord>>)
        requires
            self.wf(),
        ensures
            match r {
                Some(p) => self.as_map().contains_key(word@) && p@ == self.as_map()[word@],
                None => !self.as_map().contains_key(word@),
            },
    {
        match self.find(word) {
            Some(i) => {
                proof {
                    self.lemma_key_at(i as int);
                }
                Some(&self.entries[i].1)
            },
            None => None,
        }
    }

    pub fn len(&self) -> (r: usize)
        ensures
            r == self.entries@.len(),
    {
        self.entries.len()
    }
}

} // verus!
