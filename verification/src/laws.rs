//! What holds of the trie as a whole: what a search finds after an insertion,
//! how the size counts the nodes, and that a search resumed from a query
//! memory returns what a search from the root returns.

use crate::insertion::landing;
use crate::memory::MemoryModel;
use crate::model::{reached, TrieModel};
use vstd::prelude::*;
use vstd::set_lib::{lemma_int_range, set_int_range};

verus! {

impl TrieModel {
    /// The arena after the words of `words` have been inserted one after the other.
    pub open spec fn insert_all(self, words: Seq<Seq<char>>) -> TrieModel
        decreases words.len(),
    {
        if words.len() == 0 {
            self
        } else {
            self.insert_all(words.drop_last()).insert(words.last())
        }
    }

    /// The number of nodes made while the words of `words` are inserted one
    /// after the other.
    pub open spec fn nodes_made(self, words: Seq<Seq<char>>) -> int
        decreases words.len(),
    {
        if words.len() == 0 {
            0
        } else {
            self.nodes_made(words.drop_last()) + self.insert_all(words.drop_last()).missing(
                words.last(),
            )
        }
    }

    /// The cache `ids` holds the first nodes of the walk along `word`.
    pub open spec fn caches(self, word: Seq<char>, ids: Seq<int>) -> bool {
        ids.is_prefix_of(self.walk(word))
    }

    /// The characters on the way from the root to `node`.
    pub open spec fn prefix_of(self, node: int) -> Seq<char>
        decreases node,
    {
        let parent = self.parent_of(node);
        if 0 <= parent < node <= self.size {
            self.prefix_of(parent).push(self.nodes[node].data)
        } else {
            Seq::empty()
        }
    }

    /// Two walks that end at the same node have passed the same nodes and
    /// consumed the same characters.
    proof fn lemma_same_node_same_path(
        self,
        one: Seq<char>,
        other: Seq<char>,
        at_one: int,
        at_other: int,
    )
        requires
            self.wf_arena(),
            self.wf_tree(),
            0 <= at_one < self.walk(one).len(),
            0 <= at_other < self.walk(other).len(),
            self.walk(one)[at_one] == self.walk(other)[at_other],
        ensures
            at_one == at_other,
            forall|j: int| 0 <= j <= at_one ==> one[j] == other[j],
        decreases at_one,
    {
        let a = self.walk(one);
        let b = self.walk(other);
        let x = a[at_one];
        self.lemma_walk_has(0, one);
        self.lemma_walk_has(0, other);
        self.lemma_walk_step(0, one, at_one);
        self.lemma_walk_step(0, other, at_other);
        let before_one = landing(0, a.take(at_one));
        let before_other = landing(0, b.take(at_other));
        assert(self.has(before_one)) by {
            if at_one > 0 {
                assert(a.take(at_one).last() == a[at_one - 1]);
            }
        }
        assert(self.has(before_other)) by {
            if at_other > 0 {
                assert(b.take(at_other).last() == b[at_other - 1]);
            }
        }
        self.lemma_child_with(before_one, one[at_one]);
        self.lemma_child_with(before_other, other[at_other]);
        let ja = choose|j: int| self.is_child_at(before_one, j, x);
        let jb = choose|j: int| self.is_child_at(before_other, j, x);
        assert(self.is_child_at(before_one, ja, x) && self.is_child_at(before_other, jb, x));
        assert(before_one == before_other);
        if at_one > 0 && at_other > 0 {
            assert(a.take(at_one).last() == a[at_one - 1]);
            assert(b.take(at_other).last() == b[at_other - 1]);
            self.lemma_same_node_same_path(one, other, at_one - 1, at_other - 1);
        } else if at_one > 0 {
            // The node before is a child, and so it is not the root.
            assert(a.take(at_one).last() == a[at_one - 1]);
            self.lemma_walk_step(0, one, at_one - 1);
            let root_side = landing(0, a.take(at_one - 1));
            assert(self.has(root_side)) by {
                if at_one > 1 {
                    assert(a.take(at_one - 1).last() == a[at_one - 2]);
                }
            }
            self.lemma_child_with(root_side, one[at_one - 1]);
        } else if at_other > 0 {
            assert(b.take(at_other).last() == b[at_other - 1]);
            self.lemma_walk_step(0, other, at_other - 1);
            let root_side = landing(0, b.take(at_other - 1));
            assert(self.has(root_side)) by {
                if at_other > 1 {
                    assert(b.take(at_other - 1).last() == b[at_other - 2]);
                }
            }
            self.lemma_child_with(root_side, other[at_other - 1]);
        }
    }

    /// Law: no two words are spelled by the path to one node.
    pub proof fn lemma_spelling_unique(self, one: Seq<char>, other: Seq<char>, node: int)
        requires
            self.wf_arena(),
            self.wf_tree(),
            self.spells(one, node),
            self.spells(other, node),
        ensures
            one == other,
    {
        self.lemma_same_node_same_path(one, other, one.len() - 1, other.len() - 1);
        assert(one =~= other);
    }

    /// The walk along a run of characters followed by one more goes on, from
    /// where the walk along the run ends, to the child for that character.
    proof fn lemma_walk_one_more(self, run: Seq<char>, c: char)
        requires
            self.walk(run).len() == run.len(),
        ensures
            self.walk(run.push(c)) == match self.child_with(reached(self.walk(run)), c) {
                Some(next) => self.walk(run).push(next),
                None => self.walk(run),
            },
    {
        let longer = run.push(c);
        let k = run.len() as int;
        assert(run =~= longer.subrange(0, k));
        self.lemma_walk_prefix(0, run, longer);
        self.lemma_walk_resume(0, longer, k);
        assert(self.walk(longer).take(k) =~= self.walk(run));
        assert(longer.skip(k) =~= seq![c]);
        assert(seq![c].drop_first() =~= Seq::<char>::empty());
        let end = reached(self.walk(run));
        match self.child_with(end, c) {
            Some(next) => {
                assert(self.walk_from(next, Seq::<char>::empty()) =~= Seq::<int>::empty());
                assert(self.walk_from(end, seq![c]) =~= seq![next]);
                assert(self.walk(longer) =~= self.walk(run).push(next));
            },
            None => {
                assert(self.walk_from(end, seq![c]) =~= Seq::<int>::empty());
                assert(self.walk(longer) =~= self.walk(run));
            },
        }
    }

    /// Law: every node is reached from the root. The walk along the
    /// characters on the way to a node consumes them all and ends at that node.
    pub proof fn lemma_every_node_is_reached(self, node: int)
        requires
            self.wf(),
            self.has(node),
        ensures
            self.walk(self.prefix_of(node)).len() == self.prefix_of(node).len(),
            reached(self.walk(self.prefix_of(node))) == node,
            node > 0 ==> self.spells(self.prefix_of(node), node),
        decreases node,
    {
        if node > 0 {
            assert(self.has_parent(node));
            let (p, j) = choose|p: int, j: int| self.is_child_at(p, j, node);
            self.lemma_parent_of(p, j, node);
            self.lemma_every_node_is_reached(p);
            let run = self.prefix_of(p);
            let c = self.nodes[node].data;
            assert(self.found_at(p, c, 0, j, node)) by {
                assert forall|k: int| 0 <= k < j implies !#[trigger] self.holds_at(p, k, c) by {
                    assert(self.is_child_at(p, k, self.nodes[p].children[k]));
                }
            }
            self.lemma_scan_found(p, c, 0, j, node);
            self.lemma_walk_one_more(run, c);
        }
    }

    /// Law: every node is reached by one path only. The characters on the
    /// way to a node are the only ones whose walk ends at it.
    pub proof fn lemma_one_path_to_each_node(self, word: Seq<char>, node: int)
        requires
            self.wf(),
            self.spells(word, node),
        ensures
            word == self.prefix_of(node),
    {
        let path = self.walk(word);
        let last = path.len() - 1;
        self.lemma_walk_has(0, word);
        self.lemma_walk_step(0, word, last);
        let before = landing(0, path.take(last));
        assert(self.has(before)) by {
            if last > 0 {
                assert(path.take(last).last() == path[last - 1]);
            }
        }
        self.lemma_child_with(before, word[last]);
        self.lemma_every_node_is_reached(node);
        self.lemma_spelling_unique(word, self.prefix_of(node), node);
    }

    /// Law: the size is the number of nodes below the root. The identities in
    /// use are the keys of the table, and there is one more of them than the
    /// size says, which is the root.
    pub proof fn lemma_size_counts_nodes(self)
        requires
            self.wf_arena(),
        ensures
            self.nodes.dom().finite(),
            self.nodes.dom().len() == self.size + 1,
    {
        lemma_int_range(0, self.size + 1);
        assert(self.nodes.dom() =~= set_int_range(0, self.size + 1));
    }

    /// Law: an insertion adds one node for each character that the walk along
    /// the word does not consume, with the identities that follow the size,
    /// and takes no node away.
    pub proof fn lemma_insert_grows(self, word: Seq<char>)
        requires
            self.wf_arena(),
        ensures
            self.insert(word).size == self.size + self.missing(word),
            self.insert(word).size >= self.size,
            forall|id: int|
                #[trigger] self.insert(word).nodes.contains_key(id) <==> self.nodes.contains_key(id)
                    || self.size < id <= self.size + self.missing(word),
    {
        self.lemma_walk_len(0, word);
    }

    /// Law: whatever words are inserted one after the other, the result is a
    /// trie, and its size never goes down on the way.
    pub proof fn lemma_insert_all(self, words: Seq<Seq<char>>)
        requires
            self.wf(),
        ensures
            self.insert_all(words).wf(),
            self.insert_all(words).size >= self.size,
            forall|i: int|
                0 <= i <= words.len() ==> (#[trigger] self.insert_all(words.take(i))).size
                    <= self.insert_all(words).size,
        decreases words.len(),
    {
        if words.len() > 0 {
            let before = self.insert_all(words.drop_last());
            self.lemma_insert_all(words.drop_last());
            before.lemma_insert_wf(words.last());
            before.lemma_insert_grows(words.last());
            assert forall|i: int| 0 <= i <= words.len() implies (#[trigger] self.insert_all(
                words.take(i),
            )).size <= self.insert_all(words).size by {
                if i < words.len() {
                    assert(words.take(i) =~= words.drop_last().take(i));
                } else {
                    assert(words.take(i) =~= words);
                }
            }
        } else {
            assert forall|i: int| 0 <= i <= words.len() implies (#[trigger] self.insert_all(
                words.take(i),
            )).size <= self.insert_all(words).size by {
                assert(words.take(i) =~= words);
            }
        }
    }

    /// Law: the size counts the nodes that the insertions have made. After
    /// any run of insertions, the size has grown by the number of nodes made,
    /// and the table holds that many nodes and the root.
    pub proof fn lemma_size_counts_nodes_made(self, words: Seq<Seq<char>>)
        requires
            self.wf(),
        ensures
            self.insert_all(words).size == self.size + self.nodes_made(words),
            self.insert_all(words).nodes.dom().finite(),
            self.insert_all(words).nodes.dom().len() == self.size + self.nodes_made(words) + 1,
        decreases words.len(),
    {
        self.lemma_insert_all(words);
        self.insert_all(words).lemma_size_counts_nodes();
        if words.len() > 0 {
            self.lemma_size_counts_nodes_made(words.drop_last());
            self.lemma_insert_all(words.drop_last());
            self.insert_all(words.drop_last()).lemma_insert_grows(words.last());
        }
    }

    /// Law: inserting the empty word changes nothing.
    pub proof fn lemma_insert_empty_word(self)
        requires
            self.wf_arena(),
        ensures
            self.insert(Seq::<char>::empty()) == self,
    {
        self.lemma_grown_unchanged(Seq::<char>::empty(), 0);
    }

    /// Law: an insertion that needs no new node changes nothing. It does not
    /// make the node of the last character end the word.
    pub proof fn lemma_insert_along_known_path(self, word: Seq<char>)
        requires
            self.wf_arena(),
            self.missing(word) == 0,
        ensures
            self.insert(word) == self,
    {
        self.lemma_grown_unchanged(word, word.len() as int);
    }

    /// Law: inserting a word a second time changes nothing.
    pub proof fn lemma_insert_twice(self, word: Seq<char>)
        requires
            self.wf_arena(),
        ensures
            self.insert(word).insert(word) == self.insert(word),
            self.insert(word).insert(word).size == self.insert(word).size,
    {
        let new = self.insert(word);
        self.lemma_insert_walk(word);
        self.lemma_grown_wf_arena(word, word.len() as int);
        new.lemma_grown_unchanged(word, word.len() as int);
    }

    /// Law: a word that all has its nodes keeps them through every insertion.
    pub proof fn lemma_known_path_stays_known(self, word: Seq<char>, others: Seq<Seq<char>>)
        requires
            self.wf(),
            self.missing(word) == 0,
        ensures
            self.insert_all(others).missing(word) == 0,
            self.insert_all(others).walk(word) == self.walk(word),
        decreases others.len(),
    {
        if others.len() > 0 {
            let before = self.insert_all(others.drop_last());
            self.lemma_known_path_stays_known(word, others.drop_last());
            self.lemma_insert_all(others.drop_last());
            before.lemma_insert_keeps_walk(others.last(), 0, word);
        }
    }

    /// Law: inserting a word again, whatever was inserted in between, changes
    /// nothing and so leaves the size as it is.
    pub proof fn lemma_insert_again(self, word: Seq<char>, others: Seq<Seq<char>>)
        requires
            self.wf(),
        ensures
            self.insert(word).insert_all(others).insert(word) == self.insert(word).insert_all(
                others,
            ),
    {
        let once = self.insert(word);
        self.lemma_insert_wf(word);
        self.lemma_insert_walk(word);
        once.lemma_known_path_stays_known(word, others);
        once.lemma_insert_all(others);
        once.insert_all(others).lemma_insert_along_known_path(word);
    }

    /// Law: an insertion changes no node that was there before, but for the
    /// new child of the node where the walk along the word ended.
    pub proof fn lemma_insert_keeps_nodes(self, word: Seq<char>, id: int)
        requires
            self.wf_arena(),
            self.has(id),
        ensures
            self.insert(word).nodes[id].data == self.nodes[id].data,
            self.insert(word).nodes[id].word == self.nodes[id].word,
            self.nodes[id].children.is_prefix_of(self.insert(word).nodes[id].children),
            id != reached(self.walk(word)) ==> self.insert(word).nodes[id] == self.nodes[id],
    {
        self.lemma_walk_len(0, word);
        let old = self.nodes[id].children;
        let new = self.insert(word).nodes[id].children;
        assert(old =~= new.subrange(0, old.len() as int));
    }

    /// Law: a node that ends a word ends that word after every insertion, and
    /// the word still leads to it.
    pub proof fn lemma_insert_keeps_words(self, word: Seq<char>, node: int)
        requires
            self.wf(),
            self.has(node),
            self.nodes[node].word is Some,
        ensures
            self.insert(word).nodes[node].word == self.nodes[node].word,
            self.insert(word).spells(self.nodes[node].word->0, node),
    {
        self.lemma_walk_len(0, word);
        self.lemma_insert_data(word, node);
        self.lemma_insert_keeps_walk(word, 0, self.nodes[node].word->0);
    }

    /// The first word among the completions of a node that ends a word is
    /// that word.
    pub proof fn lemma_own_word_first(self, node: int)
        requires
            self.has(node),
            self.nodes[node].word is Some,
        ensures
            self.completions(node).len() > 0,
            self.completions(node)[0] == self.nodes[node].word->0,
    {
        let below = self.forest(node, 0);
        self.lemma_words_of_add(seq![node], below);
        assert(seq![node].drop_last() =~= Seq::<int>::empty());
        assert(self.words_of(seq![node]) =~= seq![self.nodes[node].word->0]) by {
            reveal_with_fuel(Seq::filter_map, 2);
        }
    }

    /// Law: a search for a word that has just been inserted returns that word,
    /// and returns it first, unless it is asked for no word at all.
    ///
    /// An insertion does not turn a node that was there before into one that
    /// ends a word. The law therefore asks that the word got a node of its own
    /// or that its node ended a word already. The empty word has no node.
    pub proof fn lemma_inserted_word_is_suggested(self, word: Seq<char>, amount: int)
        requires
            self.wf(),
            amount != 0,
            word.len() > 0,
            self.missing(word) > 0 || self.nodes[reached(self.walk(word))].word is Some,
        ensures
            self.insert(word).search(word, amount).len() > 0,
            self.insert(word).search(word, amount)[0] == word,
            self.insert(word).search(word, amount).contains(word),
    {
        let new = self.insert(word);
        let end = self.cursor(word, word.len() as int);
        self.lemma_walk_len(0, word);
        self.lemma_insert_walk(word);
        self.lemma_insert_wf(word);
        self.lemma_cursor_has(word, word.len() as int);
        self.lemma_insert_data(word, end);
        if self.missing(word) == 0 {
            self.lemma_grown_unchanged(word, word.len() as int);
            let carried = self.nodes[end].word->0;
            assert(self.has(end));
            assert(self.spells(carried, end));
            self.lemma_spelling_unique(carried, word, end);
        }
        new.lemma_own_word_first(end);
    }

    /// Law: a search that is asked for no word returns none.
    pub proof fn lemma_none_asked_none_given(self, word: Seq<char>, ids: Seq<int>)
        ensures
            self.resumed_search(word, ids, 0).len() == 0,
            self.search(word, 0).len() == 0,
    {
    }

    /// Some word ends at or below every node, but for the root of a trie
    /// that holds no word.
    pub proof fn lemma_some_word_below(self, node: int)
        requires
            self.wf(),
            self.has(node),
            node > 0 || self.size > 0,
        ensures
            self.completions(node).len() > 0,
        decreases self.size - node,
    {
        let kids = self.nodes[node].children;
        if self.nodes[node].word is Some {
            self.lemma_own_word_first(node);
        } else {
            assert(kids.len() > 0) by {
                if node == 0 {
                    // The node 1 hangs below a node with a lower identity.
                    assert(self.has_parent(1));
                    let (p, j) = choose|p: int, j: int| self.is_child_at(p, j, 1);
                    assert(self.is_child_at(p, j, 1));
                }
            }
            let first = kids[0];
            assert(self.is_child_at(node, 0, first));
            self.lemma_some_word_below(first);
            let rest = self.forest(node, 1);
            assert(self.subtree(node) =~= seq![node] + (self.subtree(first) + rest));
            self.lemma_words_of_add(seq![node], self.subtree(first) + rest);
            self.lemma_words_of_add(self.subtree(first), rest);
        }
    }

    /// Law: a search returns no word exactly when it is asked for none or the
    /// trie holds none. A query that the trie does not hold is no reason: the
    /// walk stops at the last node that matches, and the words at or below
    /// that node are returned.
    pub proof fn lemma_nothing_found(self, word: Seq<char>, amount: int)
        requires
            self.wf(),
        ensures
            self.search(word, amount).len() == 0 <==> amount == 0 || self.size == 0,
    {
        self.lemma_walk_has(0, word);
        let end = reached(self.walk(word));
        if self.size > 0 {
            self.lemma_some_word_below(end);
        } else {
            assert(self.walk(word) =~= Seq::<int>::empty()) by {
                if self.walk(word).len() > 0 {
                    assert(self.has(self.walk(word)[0]));
                    self.lemma_walk_step(0, word, 0);
                    assert(self.walk(word).take(0) =~= Seq::<int>::empty());
                    self.lemma_child_with(0, word[0]);
                }
            }
            assert(self.nodes[0].children.len() == 0) by {
                if self.nodes[0].children.len() > 0 {
                    assert(self.is_child_at(0, 0, self.nodes[0].children[0]));
                }
            }
            assert(self.forest(0, 0) =~= Seq::<int>::empty());
            assert(self.subtree(0) =~= seq![0int]);
            assert(seq![0int].drop_last() =~= Seq::<int>::empty());
            assert(self.words_of(seq![0int]) =~= Seq::<Seq<char>>::empty()) by {
                reveal_with_fuel(Seq::filter_map, 2);
            }
        }
    }

    /// Law: every search in a trie that holds no word returns no word.
    pub proof fn lemma_empty_trie_suggests_nothing(word: Seq<char>, amount: int)
        ensures
            TrieModel::empty().search(word, amount).len() == 0,
    {
        let t = TrieModel::empty();
        assert(t.walk(word) =~= Seq::<int>::empty()) by {
            if word.len() > 0 {
                assert(t.scan(0, word[0], 0) is None);
            }
        }
        assert(t.forest(0, 0) =~= Seq::<int>::empty());
        assert(t.subtree(0) =~= seq![0int]);
        assert(seq![0int].drop_last() =~= Seq::<int>::empty());
        assert(t.words_of(seq![0int]) =~= Seq::<Seq<char>>::empty()) by {
            reveal_with_fuel(Seq::filter_map, 2);
        }
    }

    /// A walk can stop after any number of its nodes and go on from there
    /// with the characters left.
    pub proof fn lemma_walk_resume(self, start: int, s: Seq<char>, k: int)
        requires
            0 <= k <= self.walk_from(start, s).len(),
        ensures
            k <= s.len(),
            self.walk_from(start, s) == self.walk_from(start, s).take(k) + self.walk_from(
                landing(start, self.walk_from(start, s).take(k)),
                s.skip(k),
            ),
        decreases k,
    {
        let path = self.walk_from(start, s);
        self.lemma_walk_len(start, s);
        if k == 0 {
            assert(s.skip(0) =~= s);
            assert(path.take(0) =~= Seq::<int>::empty());
            assert(path =~= path.take(0) + path);
        } else {
            let next = self.child_with(start, s[0])->0;
            let tail = self.walk_from(next, s.drop_first());
            self.lemma_walk_resume(next, s.drop_first(), k - 1);
            assert(s.drop_first().skip(k - 1) =~= s.skip(k));
            assert(path.take(k) =~= seq![next] + tail.take(k - 1));
            assert(landing(start, path.take(k)) == landing(next, tail.take(k - 1))) by {
                if k - 1 > 0 {
                    assert(path.take(k).last() == tail.take(k - 1).last());
                }
            }
            assert(path =~= path.take(k) + self.walk_from(
                landing(start, path.take(k)),
                s.skip(k),
            ));
        }
    }

    /// The walk along a query is the beginning of the walk along any query
    /// that begins with it.
    pub proof fn lemma_walk_prefix(self, start: int, shorter: Seq<char>, longer: Seq<char>)
        requires
            shorter.is_prefix_of(longer),
        ensures
            self.walk_from(start, shorter).is_prefix_of(self.walk_from(start, longer)),
        decreases shorter.len(),
    {
        if shorter.len() > 0 {
            assert(shorter[0] == longer.subrange(0, shorter.len() as int)[0]);
            if let Some(next) = self.child_with(start, shorter[0]) {
                assert(shorter.drop_first() =~= longer.drop_first().subrange(
                    0,
                    shorter.len() - 1,
                ));
                self.lemma_walk_prefix(next, shorter.drop_first(), longer.drop_first());
                let a = self.walk_from(next, shorter.drop_first());
                let b = self.walk_from(next, longer.drop_first());
                assert(seq![next] + a =~= (seq![next] + b).subrange(0, a.len() as int + 1));
            } else {
                assert(self.walk_from(start, shorter) =~= self.walk_from(start, longer).subrange(
                    0,
                    0,
                ));
            }
        } else {
            assert(self.walk_from(start, shorter) =~= self.walk_from(start, longer).subrange(0, 0));
        }
    }

    /// Law: a search that resumes from a cache of the walk along its query
    /// caches that whole walk, and returns what a search from the root returns.
    pub proof fn lemma_resumed_search_is_search(self, word: Seq<char>, ids: Seq<int>, amount: int)
        requires
            self.caches(word, ids),
        ensures
            self.resumed_path(word, ids) == self.walk(word),
            self.resumed_search(word, ids, amount) == self.search(word, amount),
            self.caches(word, self.resumed_path(word, ids)),
    {
        let path = self.walk(word);
        self.lemma_walk_resume(0, word, ids.len() as int);
        assert(path.take(ids.len() as int) =~= ids);
        assert(path =~= path.subrange(0, path.len() as int));
    }

    /// Law: the cache of a query serves every query that begins with it.
    pub proof fn lemma_cache_serves_longer_query(
        self,
        shorter: Seq<char>,
        longer: Seq<char>,
        ids: Seq<int>,
    )
        requires
            self.caches(shorter, ids),
            shorter.is_prefix_of(longer),
        ensures
            self.caches(longer, ids),
    {
        self.lemma_walk_prefix(0, shorter, longer);
        let a = self.walk(shorter);
        let b = self.walk(longer);
        assert(ids =~= b.subrange(0, ids.len() as int));
    }

    /// Law: a search can always start from a cache of the walk along its query.
    pub proof fn lemma_cache_can_resume(self, word: Seq<char>, ids: Seq<int>)
        requires
            self.wf_arena(),
            self.caches(word, ids),
        ensures
            self.can_resume(word, ids),
    {
        self.lemma_walk_len(0, word);
        self.lemma_walk_has(0, word);
        if ids.len() > 0 {
            assert(ids.last() == self.walk(word)[ids.len() - 1]);
        }
    }

    /// Law: the query memory is transparent. Where it caches the walk along
    /// its query, it does so after any new query has been taken, and the
    /// search for the new query returns what a search from the root returns,
    /// whether the new query begins with the query before or not.
    pub proof fn lemma_memory_is_transparent(
        self,
        memory: MemoryModel,
        query: Seq<char>,
        amount: int,
    )
        requires
            self.caches(memory.word, memory.node_ids),
        ensures
            self.caches(query, memory.updated(query).node_ids),
            self.resumed_search(query, memory.updated(query).node_ids, amount) == self.search(
                query,
                amount,
            ),
            self.resumed_path(query, memory.updated(query).node_ids) == self.walk(query),
    {
        if memory.word.is_prefix_of(query) {
            self.lemma_cache_serves_longer_query(memory.word, query, memory.node_ids);
        } else {
            assert(Seq::<int>::empty() =~= self.walk(query).subrange(0, 0));
        }
        self.lemma_resumed_search_is_search(query, memory.updated(query).node_ids, amount);
    }

    /// Law: typing on is transparent. When a search for a query has filled an
    /// empty cache and the query is then made longer, the search for the
    /// longer query from that cache returns what a search from the root returns.
    pub proof fn lemma_typing_on(self, shorter: Seq<char>, longer: Seq<char>, amount: int)
        requires
            shorter.is_prefix_of(longer),
        ensures
            self.resumed_search(
                longer,
                self.resumed_path(shorter, Seq::<int>::empty()),
                amount,
            ) == self.search(longer, amount),
    {
        let empty = Seq::<int>::empty();
        assert(empty =~= self.walk(shorter).subrange(0, 0));
        self.lemma_resumed_search_is_search(shorter, empty, amount);
        self.lemma_cache_serves_longer_query(shorter, longer, self.resumed_path(shorter, empty));
        self.lemma_resumed_search_is_search(longer, self.resumed_path(shorter, empty), amount);
    }

    /// Law: the cache of a query stays good while the trie grows. An
    /// insertion leaves every walk as it was, or makes it longer.
    pub proof fn lemma_insert_extends_walk(self, word: Seq<char>, start: int, s: Seq<char>)
        requires
            self.wf_arena(),
            self.has(start),
        ensures
            self.walk_from(start, s).is_prefix_of(self.insert(word).walk_from(start, s)),
        decreases s.len(),
    {
        let old = self.walk_from(start, s);
        let new = self.insert(word).walk_from(start, s);
        if s.len() > 0 && self.child_with(start, s[0]) is Some {
            let next = self.child_with(start, s[0])->0;
            self.lemma_child_with(start, s[0]);
            self.lemma_insert_keeps_child(word, start, s[0]);
            self.lemma_insert_extends_walk(word, next, s.drop_first());
            let old_tail = self.walk_from(next, s.drop_first());
            let new_tail = self.insert(word).walk_from(next, s.drop_first());
            assert(old =~= new.subrange(0, old.len() as int)) by {
                assert(old_tail =~= new_tail.subrange(0, old_tail.len() as int));
            }
        } else {
            assert(old =~= new.subrange(0, 0));
        }
    }

    /// Law: what is cached for a query before an insertion is a cache for it
    /// after the insertion.
    pub proof fn lemma_cache_survives_insert(self, word: Seq<char>, query: Seq<char>, ids: Seq<int>)
        requires
            self.wf_arena(),
            self.caches(query, ids),
        ensures
            self.insert(word).caches(query, ids),
    {
        self.lemma_insert_extends_walk(word, 0, query);
        let old = self.walk(query);
        let new = self.insert(word).walk(query);
        assert(ids =~= new.subrange(0, ids.len() as int)) by {
            assert(old =~= new.subrange(0, old.len() as int));
            assert(ids =~= old.subrange(0, ids.len() as int));
        }
    }
}

} // verus!
