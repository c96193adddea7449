//! A prefix tree of words, with lookups that tell stored prefixes from
//! complete words.

use vstd::prelude::*;

use crate::text::chars_of;

verus! {

/// One node of the prefix tree: the letter on the edge into it, its children
/// (one per distinct next letter) and whether the letters from the root to
/// here spell a complete word.
#[derive(Debug, PartialEq)]
pub struct Node {
    pub letter: Option<char>,
    pub children: Vec<Box<Node>>,
    pub word_end: bool,
}

/// A prefix tree of words. Its view maps every stored prefix to whether that
/// prefix is itself a stored word.
#[derive(Debug, PartialEq)]
pub struct Trie {
    pub root_node: Box<Node>,
}

/// The dictionary `m` after storing the word `w`: every prefix of `w` becomes
/// a key, and `w` itself becomes a complete word.
pub open spec fn with_word(m: Map<Seq<char>, bool>, w: Seq<char>) -> Map<Seq<char>, bool> {
    Map::new(
        |s: Seq<char>| m.contains_key(s) || s.is_prefix_of(w),
        |s: Seq<char>| s == w || (m.contains_key(s) && m[s]),
    )
}

/// What looking `s` up in the dictionary `m` gives: nothing when `s` is not a
/// stored prefix, else whether it is a complete word.
pub open spec fn lookup(m: Map<Seq<char>, bool>, s: Seq<char>) -> Option<bool> {
    if m.contains_key(s) {
        Some(m[s])
    } else {
        None
    }
}

/// The dictionary holding only the empty prefix, with no complete word.
pub open spec fn empty_dictionary() -> Map<Seq<char>, bool> {
    map![Seq::<char>::empty() => false]
}

/// The dictionary obtained by storing `words` in order into an empty one.
pub open spec fn dictionary_of(words: Seq<Seq<char>>) -> Map<Seq<char>, bool>
    decreases words.len(),
{
    if words.len() == 0 {
        empty_dictionary()
    } else {
        with_word(dictionary_of(words.drop_last()), words.last())
    }
}

impl Node {
    /// The child reached by the edge labelled `c`, if there is one.
    pub open spec fn child(self, c: char) -> Option<Node> {
        if exists|i: int| 0 <= i < self.children@.len() && self.children@[i].letter == Some(c) {
            let i = choose|i: int|
                0 <= i < self.children@.len() && self.children@[i].letter == Some(c);
            Some(*self.children@[i])
        } else {
            None
        }
    }

    /// The node reached from this one by following the letters of `s`.
    pub open spec fn node_at(self, s: Seq<char>) -> Option<Node>
        decreases s.len(),
    {
        if s.len() == 0 {
            Some(self)
        } else {
            match self.child(s[0]) {
                Some(ch) => ch.node_at(s.drop_first()),
                None => None,
            }
        }
    }

    /// Each child carries a letter, and no two children carry the same one.
    pub open spec fn children_distinct(self) -> bool {
        &&& forall|i: int|
            0 <= i < self.children@.len() ==> (#[trigger] self.children@[i]).letter is Some
        &&& forall|i: int, j: int|
            0 <= i < j < self.children@.len() ==> (#[trigger] self.children@[i]).letter
                != (#[trigger] self.children@[j]).letter
    }

    /// Children are distinct by letter at every node of the subtree.
    pub open spec fn wf(self) -> bool
        decreases self,
    {
        &&& self.children_distinct()
        &&& forall|i: int| 0 <= i < self.children@.len() ==> (#[trigger] self.children@[i]).wf()
    }

    /// The child reached by the letter of child `k` is child `k`.
    pub proof fn lemma_child_at(self, k: int)
        requires
            self.children_distinct(),
            0 <= k < self.children@.len(),
        ensures
            self.child(self.children@[k].letter->0) == Some(*self.children@[k]),
    {
        let c = self.children@[k].letter->0;
        assert(self.children@[k].letter == Some(c));
        let i = choose|i: int| 0 <= i < self.children@.len() && self.children@[i].letter == Some(c);
        if i < k {
            assert(self.children@[i].letter != self.children@[k].letter);
        } else if k < i {
            assert(self.children@[k].letter != self.children@[i].letter);
        }
    }

    /// Replacing or adding the child at `k`, which carries `c`, leaves the
    /// child reached by any other letter `d` as it was.
    proof fn lemma_child_unchanged(pre: Node, post: Node, k: int, c: char, d: char)
        requires
            pre.children_distinct(),
            post.children_distinct(),
            0 <= k < post.children@.len(),
            post.children@[k].letter == Some(c),
            k < pre.children@.len() ==> pre.children@[k].letter == Some(c),
            k <= pre.children@.len(),
            post.children@.len() == if k < pre.children@.len() {
                pre.children@.len()
            } else {
                pre.children@.len() + 1
            },
            forall|j: int|
                0 <= j < pre.children@.len() && j != k ==> (#[trigger] post.children@[j])
                    == pre.children@[j],
            d != c,
        ensures
            post.child(d) == pre.child(d),
    {
        if exists|j: int| 0 <= j < pre.children@.len() && pre.children@[j].letter == Some(d) {
            let j = choose|j: int| 0 <= j < pre.children@.len() && pre.children@[j].letter == Some(d);
            assert(j != k);
            pre.lemma_child_at(j);
            post.lemma_child_at(j);
        } else {
            assert forall|j: int| 0 <= j < post.children@.len() implies post.children@[j].letter != Some(d) by {
                if j != k {
                    assert(post.children@[j] == pre.children@[j]);
                }
            }
        }
    }

    /// Storing `w` below a node whose child for `w[0]` (found at `k`, or
    /// added there) has stored the rest of `w`.
    proof fn lemma_insert_step(pre: Node, post: Node, k: int, w: Seq<char>)
        requires
            pre.children_distinct(),
            post.children_distinct(),
            w.len() > 0,
            0 <= k < post.children@.len(),
            post.children@[k].letter == Some(w[0]),
            k < pre.children@.len() ==> pre.children@[k].letter == Some(w[0]),
            k == pre.children@.len() ==> forall|j: int|
                0 <= j < pre.children@.len() ==> (#[trigger] pre.children@[j]).letter != Some(w[0]),
            k <= pre.children@.len(),
            post.children@.len() == if k < pre.children@.len() {
                pre.children@.len()
            } else {
                pre.children@.len() + 1
            },
            forall|j: int|
                0 <= j < pre.children@.len() && j != k ==> (#[trigger] post.children@[j])
                    == pre.children@[j],
            post.word_end == pre.word_end,
            post.children@[k]@ == with_word(
                if k < pre.children@.len() {
                    pre.children@[k]@
                } else {
                    empty_dictionary()
                },
                w.drop_first(),
            ),
        ensures
            post@ == with_word(pre@, w),
    {
        let c = w[0];
        let oc = if k < pre.children@.len() {
            pre.children@[k]@
        } else {
            empty_dictionary()
        };
        post.lemma_child_at(k);
        if k < pre.children@.len() {
            pre.lemma_child_at(k);
        } else {
            if exists|j: int| 0 <= j < pre.children@.len() && pre.children@[j].letter == Some(c) {
                let j = choose|j: int| 0 <= j < pre.children@.len() && pre.children@[j].letter == Some(c);
                assert(pre.children@[j].letter != Some(w[0]));
            }
            assert(pre.child(c) is None);
        }
        let ww = with_word(pre@, w);
        assert forall|s: Seq<char>|
            post@.dom().contains(s) == #[trigger] ww.dom().contains(s) && (post@.dom().contains(s)
                ==> post@[s] == ww[s]) by {
            if s.len() == 0 {
                assert(s.is_prefix_of(w));
                assert(s != w);
            } else if s[0] == c {
                let t = s.drop_first();
                assert(s =~= seq![c] + t);
                assert(w =~= seq![c] + w.drop_first());
                assert(s.is_prefix_of(w) == t.is_prefix_of(w.drop_first())) by {
                    if t.is_prefix_of(w.drop_first()) {
                        assert(s =~= w.subrange(0, s.len() as int));
                    }
                    if s.is_prefix_of(w) {
                        assert(t =~= w.drop_first().subrange(0, t.len() as int));
                    }
                }
                assert((s == w) == (t == w.drop_first()));
                assert(post@.contains_key(s) == post.children@[k]@.contains_key(t));
                assert(post@.contains_key(s) ==> post@[s] == post.children@[k]@[t]);
                if k == pre.children@.len() {
                    assert(t.len() == 0 ==> t =~= Seq::<char>::empty());
                    assert(!pre@.contains_key(s));
                } else {
                    assert(pre@.contains_key(s) == oc.contains_key(t));
                    assert(pre@.contains_key(s) ==> pre@[s] == oc[t]);
                }
            } else {
                Node::lemma_child_unchanged(pre, post, k, c, s[0]);
                assert(!s.is_prefix_of(w)) by {
                    if s.is_prefix_of(w) {
                        assert(s[0] == w.subrange(0, s.len() as int)[0]);
                    }
                }
            }
        }
        assert(post@ =~= ww);
    }

    /// Following a longer text reaches a node only if its prefix does.
    pub proof fn lemma_prefix_closed(self, s: Seq<char>, t: Seq<char>)
        ensures
            self.node_at(s + t) is Some ==> self.node_at(s) is Some,
        decreases s.len(),
    {
        if s.len() > 0 {
            assert((s + t).drop_first() =~= s.drop_first() + t);
            assert((s + t)[0] == s[0]);
            match self.child(s[0]) {
                Some(ch) => ch.lemma_prefix_closed(s.drop_first(), t),
                None => {},
            }
        }
    }

    pub fn new(letval: Option<char>) -> (r: Self)
        ensures
            r.letter == letval,
            r.children@.len() == 0,
            !r.word_end,
            r.wf(),
            r@ == empty_dictionary(),
    {
        let r = Node { letter: letval, children: Vec::new(), word_end: false };
        proof {
            assert forall|s: Seq<char>| #[trigger] r@.contains_key(s) <==> s == Seq::<char>::empty() by {
                if s.len() > 0 {
                    assert(r.child(s[0]) is None);
                } else {
                    assert(s =~= Seq::<char>::empty());
                }
            }
            assert(r@ =~= empty_dictionary());
        }
        r
    }

    /// The index of the child carrying `c`, if there is one.
    fn find_child(&self, c: char) -> (r: Option<usize>)
        ensures
            match r {
                Some(k) => k < self.children@.len() && self.children@[k as int].letter == Some(c),
                None => forall|j: int|
                    0 <= j < self.children@.len() ==> (#[trigger] self.children@[j]).letter != Some(c),
            },
    {
        let mut k: usize = 0;
        while k < self.children.len()
            invariant
                k <= self.children@.len(),
                forall|j: int| 0 <= j < k ==> (#[trigger] self.children@[j]).letter != Some(c),
            decreases self.children@.len() - k,
        {
            match self.children[k].letter {
                Some(l) => {
                    if l == c {
                        return Some(k);
                    }
                },
                None => {},
            }
            k += 1;
        }
        None
    }

    /// Stores `word[i..]` below this node.
    fn insert_from(&mut self, word: &Vec<char>, i: usize)
        requires
            old(self).wf(),
            i <= word@.len(),
        ensures
            final(self).wf(),
            final(self).letter == old(self).letter,
            final(self)@ == with_word(old(self)@, word@.subrange(i as int, word@.len() as int)),
        decreases word@.len() - i,
    {
        let ghost w = word@.subrange(i as int, word@.len() as int);
        if i == word.len() {
            self.word_end = true;
            proof {
                let ww = with_word(old(self)@, w);
                assert forall|s: Seq<char>|
                    self@.dom().contains(s) == #[trigger] ww.dom().contains(s) && (self@.dom().contains(s)
                        ==> self@[s] == ww[s]) by {
                    if s.len() > 0 {
                        assert(self.child(s[0]) == old(self).child(s[0]));
                    } else {
                        assert(s =~= w);
                    }
                }
                assert(self@ =~= ww);
            }
            return;
        }
        let c = word[i];
        let idx = match self.find_child(c) {
            Some(k) => k,
            None => {
                self.children.push(Box::new(Node::new(Some(c))));
                self.children.len() - 1
            },
        };
        self.children[idx].insert_from(word, i + 1);
        proof {
            assert(w.drop_first() =~= word@.subrange(i + 1, word@.len() as int));
            Node::lemma_insert_step(*old(self), *self, idx as int, w);
        }
    }

    /// Looks up `word[i..]` below this node.
    fn search_from(&self, word: &Vec<char>, i: usize) -> (r: Option<bool>)
        requires
            self.wf(),
            i <= word@.len(),
        ensures
            r == lookup(self@, word@.subrange(i as int, word@.len() as int)),
        decreases word@.len() - i,
    {
        let ghost w = word@.subrange(i as int, word@.len() as int);
        if i == word.len() {
            proof {
                assert(w =~= Seq::<char>::empty());
            }
            return Some(self.word_end);
        }
        let c = word[i];
        match self.find_child(c) {
            Some(k) => {
                proof {
                    self.lemma_child_at(k as int);
                    assert(w.drop_first() =~= word@.subrange(i + 1, word@.len() as int));
                }
                self.children[k].search_from(word, i + 1)
            },
            None => {
                proof {
                    assert(self.child(c) is None);
                }
                None
            },
        }
    }
}

impl View for Node {
    type V = Map<Seq<char>, bool>;

    open spec fn view(&self) -> Map<Seq<char>, bool> {
        Map::new(|s: Seq<char>| self.node_at(s) is Some, |s: Seq<char>| self.node_at(s)->0.word_end)
    }
}

impl View for Trie {
    type V = Map<Seq<char>, bool>;

    open spec fn view(&self) -> Map<Seq<char>, bool> {
        self.root_node@
    }
}

impl Trie {
    /// The root carries no letter and the whole tree is well formed.
    pub open spec fn wf(self) -> bool {
        &&& self.root_node.letter is None
        &&& self.root_node.wf()
    }

    /// No stored text continues a text that is not a stored prefix.
    pub proof fn lemma_no_prefix(self, s: Seq<char>, t: Seq<char>)
        ensures
            lookup(self@, s) is None ==> lookup(self@, s + t) is None,
    {
        self.root_node.lemma_prefix_closed(s, t);
    }

    pub fn new() -> (r: Self)
        ensures
            r.wf(),
            r@ == empty_dictionary(),
            r@ == dictionary_of(Seq::empty()),
    {
        Trie { root_node: Box::new(Node::new(None)) }
    }

    /// Stores `word`, with all its prefixes.
    pub fn insert(&mut self, word: String)
        requires
            old(self).wf(),
        ensures
            final(self).wf(),
            final(self)@ == with_word(old(self)@, word@),
    {
        let letters = chars_of(word.as_str());
        proof {
            assert(letters@.subrange(0, letters@.len() as int) =~= letters@);
        }
        self.root_node.insert_from(&letters, 0);
    }

    /// Looks `word` up: `None` when it is no stored prefix, else the word
    /// itself and whether it is a complete stored word.
    pub fn search(&self, word: &String) -> (r: Option<(String, bool)>)
        requires
            self.wf(),
        ensures
            match r {
                Some((echo, end)) => echo@ == word@ && lookup(self@, word@) == Some(end),
                None => lookup(self@, word@) is None,
            },
    {
        let letters = chars_of(word.as_str());
        proof {
            assert(letters@.subrange(0, letters@.len() as int) =~= letters@);
        }
        match self.root_node.search_from(&letters, 0) {
            Some(end) => Some((word.clone(), end)),
            None => None,
        }
    }
}

/// Storing one more word gives the dictionary of the longer list.
pub proof fn lemma_dictionary_of_push(words: Seq<Seq<char>>, w: Seq<char>)
    ensures
        dictionary_of(words.push(w)) == with_word(dictionary_of(words), w),
{
    assert(words.push(w).drop_last() =~= words);
}

/// After storing `words` in order into an empty dictionary, a text is a
/// complete word exactly when it is one of `words`, and is found at all
/// exactly when it is empty or a prefix of one of `words`.
pub proof fn lemma_dictionary_round_trip(words: Seq<Seq<char>>, s: Seq<char>)
    ensures
        dictionary_of(words).contains_key(s) <==> (s.len() == 0 || exists|i: int|
            0 <= i < words.len() && s.is_prefix_of(#[trigger] words[i])),
        lookup(dictionary_of(words), s) == Some(true) <==> words.contains(s),
    decreases words.len(),
{
    if words.len() == 0 {
        assert(s.len() == 0 ==> s =~= Seq::<char>::empty());
    } else {
        let rest = words.drop_last();
        lemma_dictionary_round_trip(rest, s);
        let w = words.last();
        assert(words =~= rest.push(w));
        if s.is_prefix_of(w) {
            assert(s.is_prefix_of(words[words.len() - 1]));
        }
        if exists|i: int| 0 <= i < words.len() && s.is_prefix_of(#[trigger] words[i]) {
            let i = choose|i: int| 0 <= i < words.len() && s.is_prefix_of(#[trigger] words[i]);
            if i < rest.len() {
                assert(rest[i] == words[i]);
            }
        }
        if words.contains(s) {
            let i = choose|i: int| 0 <= i < words.len() && words[i] == s;
            if i < rest.len() {
                assert(rest[i] == words[i]);
            }
        }
        if rest.contains(s) {
            let i = choose|i: int| 0 <= i < rest.len() && rest[i] == s;
            assert(words[i] == s);
        }
        if s == w {
            assert(words[words.len() - 1] == s);
        }
    }
}

} // verus!
