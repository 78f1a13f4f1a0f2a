//! The arena after a word has been inserted, and why it is again a trie.

use crate::model::{reached, NodeModel, TrieModel};
use vstd::prelude::*;

verus! {

/// The node a path from `start` ends at: its last entry, or `start` itself for
/// the empty path.
pub open spec fn landing(start: int, path: Seq<int>) -> int {
    if path.len() == 0 {
        start
    } else {
        path.last()
    }
}

impl TrieModel {
    /// The number of nodes made when `upto` characters of `word` have been
    /// handled: one for each character that the walk from the root does not
    /// consume.
    pub open spec fn made(self, word: Seq<char>, upto: int) -> int {
        if upto > self.walk(word).len() {
            upto - self.walk(word).len()
        } else {
            0
        }
    }

    /// The node `id` of the arena while `word` is inserted, when `upto` of its
    /// characters have been handled.
    pub open spec fn grown_node(self, word: Seq<char>, upto: int, id: int) -> NodeModel {
        let path = self.walk(word);
        let made = self.made(word, upto);
        if id <= self.size {
            if id == reached(path) && made > 0 {
                self.nodes[id].with_child(self.size + 1)
            } else {
                self.nodes[id]
            }
        } else {
            let at = path.len() + (id - self.size - 1);
            if id < self.size + made {
                NodeModel::fresh(word, at).with_child(id + 1)
            } else {
                NodeModel::fresh(word, at)
            }
        }
    }

    /// The arena while `word` is inserted, when `upto` of its characters have
    /// been handled. The characters that the walk from the root consumes
    /// change nothing. Each further character gets a new node with the next
    /// free identity, attached below the node of the character before it; the
    /// node of the last character of `word` carries `word`.
    pub open spec fn grown(self, word: Seq<char>, upto: int) -> TrieModel {
        TrieModel {
            nodes: Map::new(
                |id: int| 0 <= id <= self.size + self.made(word, upto),
                |id: int| self.grown_node(word, upto, id),
            ),
            size: self.size + self.made(word, upto),
        }
    }

    /// The arena after `word` has been inserted.
    pub open spec fn insert(self, word: Seq<char>) -> TrieModel {
        self.grown(word, word.len() as int)
    }

    /// The number of nodes that inserting `word` creates.
    pub open spec fn missing(self, word: Seq<char>) -> int {
        word.len() - self.walk(word).len()
    }

    /// The node that stands for the first `upto` characters of `word` while
    /// `word` is inserted.
    pub open spec fn cursor(self, word: Seq<char>, upto: int) -> int {
        let path = self.walk(word);
        if upto <= 0 {
            0
        } else if upto <= path.len() {
            path[upto - 1]
        } else {
            self.size + (upto - path.len())
        }
    }

    /// A walk passes no more nodes than it has characters.
    pub proof fn lemma_walk_len(self, start: int, s: Seq<char>)
        ensures
            self.walk_from(start, s).len() <= s.len(),
        decreases s.len(),
    {
        if s.len() > 0 {
            if let Some(next) = self.child_with(start, s[0]) {
                self.lemma_walk_len(next, s.drop_first());
            }
        }
    }

    /// Every node of a walk is in the arena, and so is the node it ends at.
    pub proof fn lemma_walk_has(self, start: int, s: Seq<char>)
        requires
            self.wf_arena(),
            self.has(start),
        ensures
            forall|i: int|
                0 <= i < self.walk_from(start, s).len() ==> self.has(
                    #[trigger] self.walk_from(start, s)[i],
                ),
            self.has(landing(start, self.walk_from(start, s))),
        decreases s.len(),
    {
        if s.len() > 0 {
            self.lemma_child_with(start, s[0]);
            if let Some(next) = self.child_with(start, s[0]) {
                self.lemma_walk_has(next, s.drop_first());
                let tail = self.walk_from(next, s.drop_first());
                assert forall|i: int| 0 <= i < self.walk_from(start, s).len() implies self.has(
                    #[trigger] self.walk_from(start, s)[i],
                ) by {
                    if i > 0 {
                        assert(self.walk_from(start, s)[i] == tail[i - 1]);
                    }
                }
            }
        }
    }

    /// The `i`-th node of a walk is the child, holding the `i`-th character,
    /// of the node before it.
    pub proof fn lemma_walk_step(self, start: int, s: Seq<char>, i: int)
        requires
            0 <= i < self.walk_from(start, s).len(),
        ensures
            i < s.len(),
            self.child_with(landing(start, self.walk_from(start, s).take(i)), s[i]) == Some(
                self.walk_from(start, s)[i],
            ),
        decreases s.len(),
    {
        let path = self.walk_from(start, s);
        let next = self.child_with(start, s[0])->0;
        let tail = self.walk_from(next, s.drop_first());
        if i == 0 {
            assert(path.take(0) =~= Seq::<int>::empty());
        } else {
            self.lemma_walk_step(next, s.drop_first(), i - 1);
            assert(path[i] == tail[i - 1]);
            if i == 1 {
                assert(tail.take(0) =~= Seq::<int>::empty());
                assert(path.take(1).last() == next);
            } else {
                assert(path.take(i).last() == tail.take(i - 1).last());
            }
        }
    }

    /// Where a walk ends before the characters do, the node it ends at has no
    /// child for the next character.
    pub proof fn lemma_walk_stop(self, start: int, s: Seq<char>)
        requires
            self.walk_from(start, s).len() < s.len(),
        ensures
            self.child_with(
                landing(start, self.walk_from(start, s)),
                s[self.walk_from(start, s).len() as int],
            ) is None,
        decreases s.len(),
    {
        let path = self.walk_from(start, s);
        if let Some(next) = self.child_with(start, s[0]) {
            let tail = self.walk_from(next, s.drop_first());
            self.lemma_walk_stop(next, s.drop_first());
            if tail.len() > 0 {
                assert(path.last() == tail.last());
            }
        }
    }

    /// While the characters handled are among those that the walk consumes,
    /// the arena is as it was.
    pub proof fn lemma_grown_unchanged(self, word: Seq<char>, upto: int)
        requires
            self.wf_arena(),
            upto <= self.walk(word).len(),
        ensures
            self.grown(word, upto) == self,
    {
        assert(self.grown(word, upto).nodes =~= self.nodes);
    }

    /// The node that stands for the characters handled so far is in the arena.
    pub proof fn lemma_cursor_has(self, word: Seq<char>, upto: int)
        requires
            self.wf_arena(),
            0 <= upto <= word.len(),
        ensures
            self.grown(word, upto).has(self.cursor(word, upto)),
            upto <= self.walk(word).len() ==> self.cursor(word, upto) == landing(
                0,
                self.walk(word).take(upto),
            ),
    {
        self.lemma_walk_has(0, word);
        if 0 < upto <= self.walk(word).len() {
            assert(self.has(self.walk(word)[upto - 1]));
        }
    }

    /// While a word is inserted the arena keeps its shape: the identities in
    /// use are 0 ..= size, and every child has a higher identity than its parent.
    pub proof fn lemma_grown_wf_arena(self, word: Seq<char>, upto: int)
        requires
            self.wf_arena(),
            0 <= upto <= word.len(),
        ensures
            self.grown(word, upto).wf_arena(),
    {
        let g = self.grown(word, upto);
        self.lemma_walk_has(0, word);
        assert forall|p: int, j: int, c: int| #[trigger] g.is_child_at(p, j, c) implies p < c
            <= g.size by {
            if p <= self.size {
                if j < self.nodes[p].children.len() {
                    assert(self.is_child_at(p, j, c));
                }
            }
        }
    }

    /// What the next character of `word` finds below the cursor: the next
    /// node of the walk while the walk lasts, and nothing after that.
    pub proof fn lemma_grown_next(self, word: Seq<char>, upto: int)
        requires
            self.wf_arena(),
            0 <= upto < word.len(),
        ensures
            self.grown(word, upto).child_with(self.cursor(word, upto), word[upto]) == if upto
                < self.walk(word).len() {
                Some(self.cursor(word, upto + 1))
            } else {
                None::<int>
            },
    {
        let path = self.walk(word);
        let g = self.grown(word, upto);
        if upto < path.len() {
            self.lemma_grown_unchanged(word, upto);
            self.lemma_walk_step(0, word, upto);
        } else if upto == path.len() {
            self.lemma_grown_unchanged(word, upto);
            self.lemma_walk_stop(0, word);
        } else {
            assert(g.nodes[self.cursor(word, upto)].children.len() == 0);
        }
    }

    /// Handling one character that the walk does not consume: a new node with
    /// the next free identity is attached below the cursor.
    pub proof fn lemma_grown_step(self, word: Seq<char>, upto: int)
        requires
            self.wf_arena(),
            self.walk(word).len() <= upto < word.len(),
        ensures
            ({
                let before = self.grown(word, upto);
                let cursor = self.cursor(word, upto);
                let fresh = before.size + 1;
                self.grown(word, upto + 1) == TrieModel {
                    nodes: before.nodes.insert(cursor, before.nodes[cursor].with_child(fresh)).insert(
                        fresh,
                        NodeModel::fresh(word, upto),
                    ),
                    size: fresh,
                }
            }),
            self.cursor(word, upto + 1) == self.grown(word, upto).size + 1,
    {
        let before = self.grown(word, upto);
        let after = self.grown(word, upto + 1);
        let cursor = self.cursor(word, upto);
        let fresh = before.size + 1;
        let path = self.walk(word);
        self.lemma_walk_has(0, word);
        self.lemma_cursor_has(word, upto);
        let stepped = before.nodes.insert(cursor, before.nodes[cursor].with_child(fresh)).insert(
            fresh,
            NodeModel::fresh(word, upto),
        );
        assert(after.nodes =~= stepped);
    }

    /// `child` was attached at place `j` below `parent` while `word` was
    /// inserted: below the node where the walk ended, or below the new node
    /// before it.
    pub open spec fn is_new_link(self, word: Seq<char>, parent: int, j: int, child: int) -> bool {
        let last = reached(self.walk(word));
        ||| parent == last && j == self.nodes[last].children.len() && child == self.size + 1
                && self.missing(word) > 0
        ||| self.size < parent < self.size + self.missing(word) && j == 0 && child == parent + 1
    }

    /// The child links after an insertion are those from before and the new ones.
    pub proof fn lemma_insert_links(self, word: Seq<char>, p: int, j: int, c: int)
        requires
            self.wf_arena(),
        ensures
            self.insert(word).is_child_at(p, j, c) <==> self.is_child_at(p, j, c)
                || self.is_new_link(word, p, j, c),
            self.is_child_at(p, j, c) ==> !self.is_new_link(word, p, j, c) && c <= self.size,
            self.is_new_link(word, p, j, c) ==> self.size < c,
    {
        self.lemma_walk_has(0, word);
        self.lemma_walk_len(0, word);
    }

    /// The characters that the nodes hold after an insertion.
    pub proof fn lemma_insert_data(self, word: Seq<char>, id: int)
        requires
            self.wf_arena(),
            self.insert(word).has(id),
        ensures
            id <= self.size ==> self.insert(word).nodes[id].data == self.nodes[id].data,
            id <= self.size ==> self.insert(word).nodes[id].word == self.nodes[id].word,
            id > self.size ==> self.insert(word).nodes[id].data == word[self.walk(word).len() + (id
                - self.size - 1)],
            id > self.size ==> self.insert(word).nodes[id].word == if id == self.size
                + self.missing(word) {
                Some(word)
            } else {
                None::<Seq<char>>
            },
    {
        self.lemma_walk_len(0, word);
    }

    /// What `scan` finds when the child at place `j` is the first from place
    /// `from` on to hold `c`.
    pub proof fn lemma_scan_found(self, parent: int, c: char, from: int, j: int, x: int)
        requires
            0 <= from,
            self.found_at(parent, c, from, j, x),
        ensures
            self.scan(parent, c, from) == Some(x),
        decreases j - from,
    {
        if from < j {
            assert(!self.holds_at(parent, from, c));
            self.lemma_scan_found(parent, c, from + 1, j, x);
        }
    }

    /// A child that a character found before an insertion is what the same
    /// character finds after it.
    pub proof fn lemma_insert_keeps_child(self, word: Seq<char>, parent: int, c: char)
        requires
            self.wf_arena(),
            self.has(parent),
            self.child_with(parent, c) is Some,
        ensures
            self.insert(word).child_with(parent, c) == self.child_with(parent, c),
    {
        let new = self.insert(word);
        let x = self.child_with(parent, c)->0;
        let j = self.lemma_scan(parent, c, 0);
        self.lemma_insert_links(word, parent, j, x);
        self.lemma_grown_wf_arena(word, word.len() as int);
        self.lemma_walk_len(0, word);
        assert forall|k: int| 0 <= k < j implies !#[trigger] new.holds_at(parent, k, c) by {
            assert(!self.holds_at(parent, k, c));
            let kid = self.nodes[parent].children[k];
            assert(self.is_child_at(parent, k, kid));
            self.lemma_insert_links(word, parent, k, kid);
            self.lemma_insert_data(word, kid);
        }
        self.lemma_insert_data(word, x);
        assert(new.found_at(parent, c, 0, j, x));
        new.lemma_scan_found(parent, c, 0, j, x);
    }

    /// A walk that consumed all its characters before an insertion passes the
    /// same nodes after it.
    pub proof fn lemma_insert_keeps_walk(self, word: Seq<char>, start: int, s: Seq<char>)
        requires
            self.wf_arena(),
            self.has(start),
            self.walk_from(start, s).len() == s.len(),
        ensures
            self.insert(word).walk_from(start, s) == self.walk_from(start, s),
        decreases s.len(),
    {
        if s.len() > 0 {
            self.lemma_child_with(start, s[0]);
            self.lemma_insert_keeps_child(word, start, s[0]);
            let next = self.child_with(start, s[0])->0;
            self.lemma_insert_keeps_walk(word, next, s.drop_first());
        }
    }

    /// After an insertion, each character of the word leads from its cursor to
    /// the next.
    pub proof fn lemma_insert_next(self, word: Seq<char>, i: int)
        requires
            self.wf_arena(),
            0 <= i < word.len(),
        ensures
            self.insert(word).child_with(self.cursor(word, i), word[i]) == Some(
                self.cursor(word, i + 1),
            ),
    {
        let new = self.insert(word);
        let path = self.walk(word);
        let here = self.cursor(word, i);
        let there = self.cursor(word, i + 1);
        self.lemma_walk_has(0, word);
        self.lemma_walk_len(0, word);
        self.lemma_cursor_has(word, i);
        self.lemma_grown_wf_arena(word, word.len() as int);
        if i < path.len() {
            self.lemma_walk_step(0, word, i);
            self.lemma_insert_keeps_child(word, here, word[i]);
        } else if i == path.len() {
            self.lemma_walk_stop(0, word);
            assert(path.take(i) =~= path);
            self.lemma_scan(here, word[i], 0);
            let place = self.nodes[here].children.len() as int;
            assert forall|k: int| 0 <= k < place implies !#[trigger] new.holds_at(here, k, word[i]) by {
                assert(!self.holds_at(here, k, word[i]));
                let kid = self.nodes[here].children[k];
                assert(self.is_child_at(here, k, kid));
                self.lemma_insert_links(word, here, k, kid);
                self.lemma_insert_data(word, kid);
            }
            self.lemma_insert_links(word, here, place, there);
            self.lemma_insert_data(word, there);
            assert(new.found_at(here, word[i], 0, place, there));
            new.lemma_scan_found(here, word[i], 0, place, there);
        } else {
            self.lemma_insert_links(word, here, 0, there);
            self.lemma_insert_data(word, there);
            assert(new.found_at(here, word[i], 0, 0, there));
            new.lemma_scan_found(here, word[i], 0, 0, there);
        }
    }

    /// After an insertion, the walk along the rest of the word from any of
    /// its cursors consumes that rest and ends at the last cursor.
    pub proof fn lemma_insert_walk_from(self, word: Seq<char>, i: int)
        requires
            self.wf_arena(),
            0 <= i <= word.len(),
        ensures
            self.insert(word).walk_from(self.cursor(word, i), word.skip(i)).len() == word.len() - i,
            landing(
                self.cursor(word, i),
                self.insert(word).walk_from(self.cursor(word, i), word.skip(i)),
            ) == self.cursor(word, word.len() as int),
        decreases word.len() - i,
    {
        if i < word.len() {
            self.lemma_insert_next(word, i);
            self.lemma_insert_walk_from(word, i + 1);
            assert(word.skip(i).drop_first() =~= word.skip(i + 1));
            let tail = self.insert(word).walk_from(self.cursor(word, i + 1), word.skip(i + 1));
            let all = self.insert(word).walk_from(self.cursor(word, i), word.skip(i));
            assert(all =~= seq![self.cursor(word, i + 1)] + tail);
            if tail.len() > 0 {
                assert(all.last() == tail.last());
            }
        }
    }

    /// After its insertion, the walk along a word consumes all of it and ends
    /// at the node that stands for it.
    pub proof fn lemma_insert_walk(self, word: Seq<char>)
        requires
            self.wf_arena(),
        ensures
            self.insert(word).walk(word).len() == word.len(),
            reached(self.insert(word).walk(word)) == self.cursor(word, word.len() as int),
            word.len() > 0 ==> self.insert(word).spells(word, self.cursor(word, word.len() as int)),
    {
        self.lemma_insert_walk_from(word, 0);
        assert(word.skip(0) =~= word);
    }

    /// Inserting a word leaves no node with two parents, and none without one.
    proof fn lemma_insert_wf_tree(self, word: Seq<char>)
        requires
            self.wf(),
        ensures
            self.insert(word).wf_tree(),
    {
        let new = self.insert(word);
        self.lemma_walk_has(0, word);
        self.lemma_walk_len(0, word);
        assert forall|pa: int, ja: int, pb: int, jb: int, c: int|
            #![trigger new.is_child_at(pa, ja, c), new.is_child_at(pb, jb, c)]
            new.is_child_at(pa, ja, c) && new.is_child_at(pb, jb, c) implies pa == pb && ja
            == jb by {
            self.lemma_insert_links(word, pa, ja, c);
            self.lemma_insert_links(word, pb, jb, c);
        }
        assert forall|c: int| 1 <= c <= new.size implies #[trigger] new.has_parent(c) by {
            if c <= self.size {
                assert(self.has_parent(c));
                let (p, j) = choose|p: int, j: int| self.is_child_at(p, j, c);
                self.lemma_insert_links(word, p, j, c);
                assert(new.is_child_at(p, j, c));
            } else if c == self.size + 1 {
                let last = reached(self.walk(word));
                let place = self.nodes[last].children.len() as int;
                self.lemma_insert_links(word, last, place, c);
                assert(new.is_child_at(last, place, c));
            } else {
                self.lemma_insert_links(word, c - 1, 0, c);
                assert(new.is_child_at(c - 1, 0, c));
            }
        }
    }

    /// Inserting a word leaves no node with two children for one character.
    proof fn lemma_insert_wf_letters(self, word: Seq<char>)
        requires
            self.wf(),
        ensures
            self.insert(word).wf_letters(),
    {
        let new = self.insert(word);
        let path = self.walk(word);
        let last = reached(path);
        self.lemma_walk_has(0, word);
        self.lemma_walk_len(0, word);
        self.lemma_grown_wf_arena(word, word.len() as int);
        assert forall|p: int, ja: int, ca: int, jb: int, cb: int|
            #![trigger new.is_child_at(p, ja, ca), new.is_child_at(p, jb, cb)]
            new.is_child_at(p, ja, ca) && new.is_child_at(p, jb, cb) && ja != jb implies new.nodes[ca].data
            != new.nodes[cb].data by {
            self.lemma_insert_links(word, p, ja, ca);
            self.lemma_insert_links(word, p, jb, cb);
            self.lemma_insert_data(word, ca);
            self.lemma_insert_data(word, cb);
            if self.is_child_at(p, ja, ca) && self.is_child_at(p, jb, cb) {
            } else {
                // One of the two is the node made for the first character
                // that the walk did not consume; no child held it before.
                self.lemma_walk_stop(0, word);
                let gap = word[path.len() as int];
                let j = self.lemma_scan(last, gap, 0);
                if self.is_child_at(p, ja, ca) {
                    assert(!self.holds_at(last, ja, gap));
                } else {
                    assert(!self.holds_at(last, jb, gap));
                }
            }
        }
    }

    /// After an insertion, every word that ends at a node is the one that the
    /// path to that node spells.
    proof fn lemma_insert_wf_words(self, word: Seq<char>)
        requires
            self.wf(),
        ensures
            self.insert(word).wf_words(),
    {
        let new = self.insert(word);
        self.lemma_walk_len(0, word);
        assert forall|n: int| #[trigger] new.has(n) implies (new.nodes[n].word matches Some(w)
            ==> new.spells(w, n)) by {
            self.lemma_insert_data(word, n);
            if let Some(w) = new.nodes[n].word {
                if n <= self.size {
                    assert(self.has(n));
                    assert(self.spells(w, n));
                    self.lemma_insert_keeps_walk(word, 0, w);
                } else {
                    self.lemma_insert_walk(word);
                }
            }
        }
    }

    /// After an insertion, every branch still ends with a word.
    proof fn lemma_insert_wf_leaves(self, word: Seq<char>)
        requires
            self.wf(),
        ensures
            self.insert(word).wf_leaves(),
    {
        let new = self.insert(word);
        self.lemma_walk_len(0, word);
        assert forall|n: int| #[trigger]
            new.has(n) && n > 0 && new.nodes[n].children.len() == 0 implies new.nodes[n].word is Some by {
            self.lemma_insert_data(word, n);
            if n <= self.size {
                assert(self.has(n));
            }
        }
    }

    /// Inserting a word leaves a trie.
    pub proof fn lemma_insert_wf(self, word: Seq<char>)
        requires
            self.wf(),
        ensures
            self.insert(word).wf(),
    {
        self.lemma_grown_wf_arena(word, word.len() as int);
        self.lemma_walk_len(0, word);
        self.lemma_insert_wf_tree(word);
        self.lemma_insert_wf_letters(word);
        self.lemma_insert_wf_words(word);
        self.lemma_insert_wf_leaves(word);
    }
}

} // verus!
