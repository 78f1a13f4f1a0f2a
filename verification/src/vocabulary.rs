//! The words that a trie holds, and how the suggestions relate to them:
//! every suggestion is a word of the trie that begins with what the walk
//! consumed of the query, no word is suggested twice, and a search without a
//! limit leaves no such word out.

use crate::insertion::landing;
use crate::model::{reached, TrieModel};
use vstd::prelude::*;

verus! {

/// Mapping the entries of a run that has no repeats gives no repeats where
/// no two entries are mapped to the same value.
pub proof fn lemma_filter_map_no_duplicates<A, B>(s: Seq<A>, f: spec_fn(A) -> Option<B>)
    requires
        s.no_duplicates(),
        forall|x: A, y: A|
            s.contains(x) && s.contains(y) && f(x) is Some && #[trigger] f(x) == #[trigger] f(y)
                ==> x == y,
    ensures
        s.filter_map(f).no_duplicates(),
    decreases s.len(),
{
    if s.len() > 0 {
        let rest = s.drop_last();
        assert forall|x: A| rest.contains(x) implies s.contains(x) by {
            let i = choose|i: int| 0 <= i < rest.len() && rest[i] == x;
            assert(s[i] == x);
        }
        lemma_filter_map_no_duplicates(rest, f);
        if let Some(b) = f(s.last()) {
            if rest.filter_map(f).contains(b) {
                rest.lemma_filter_map_contains(f, b);
                let t = choose|t: A| #[trigger] rest.contains(t) && f(t) == Some(b);
                let i = choose|i: int| 0 <= i < rest.len() && rest[i] == t;
                assert(s.contains(s.last()));
                assert(s[i] == s[s.len() - 1]);
            }
            assert forall|i: int, j: int|
                0 <= i < rest.filter_map(f).len() && 0 <= j < 1 implies rest.filter_map(f)[i]
                != seq![b][j] by {
                assert(rest.filter_map(f).contains(rest.filter_map(f)[i]));
            }
            vstd::seq_lib::lemma_no_dup_in_concat(rest.filter_map(f), seq![b]);
        }
    }
}

/// What an entry of a run is mapped to stands among the mapped entries.
pub proof fn lemma_filter_map_has<A, B>(s: Seq<A>, f: spec_fn(A) -> Option<B>, x: A)
    requires
        s.contains(x),
        f(x) is Some,
    ensures
        s.filter_map(f).contains(f(x)->0),
    decreases s.len(),
{
    let rest = s.drop_last();
    let mapped = rest.filter_map(f);
    if s.last() == x {
        assert((mapped + seq![f(x)->0])[mapped.len() as int] == f(x)->0);
    } else {
        let i = choose|i: int| 0 <= i < s.len() && s[i] == x;
        assert(rest[i] == x);
        lemma_filter_map_has(rest, f, x);
        let k = choose|k: int| 0 <= k < mapped.len() && mapped[k] == f(x)->0;
        if let Some(b) = f(s.last()) {
            assert((mapped + seq![b])[k] == f(x)->0);
        }
    }
}

impl TrieModel {
    /// The trie holds `word`: the walk along `word` consumes all of it and
    /// ends at a node that ends `word`.
    pub open spec fn holds(self, word: Seq<char>) -> bool {
        &&& self.spells(word, reached(self.walk(word)))
        &&& self.nodes[reached(self.walk(word))].word == Some(word)
    }

    /// The part of `query` that the walk from the root consumes.
    pub open spec fn matched(self, query: Seq<char>) -> Seq<char> {
        query.take(self.walk(query).len() as int)
    }

    /// The word that a node ends is a word that the trie holds, and it leads
    /// to that node.
    pub proof fn lemma_word_of_node_is_held(self, node: int)
        requires
            self.wf(),
            self.has(node),
            self.nodes[node].word is Some,
        ensures
            self.holds(self.nodes[node].word->0),
            reached(self.walk(self.nodes[node].word->0)) == node,
    {
    }

    /// Law: a search for a word that the trie holds returns that word, and
    /// returns it first, unless it is asked for no word at all.
    pub proof fn lemma_held_word_is_found_first(self, word: Seq<char>, amount: int)
        requires
            self.wf(),
            self.holds(word),
            amount != 0,
        ensures
            self.search(word, amount).len() > 0,
            self.search(word, amount)[0] == word,
    {
        self.lemma_walk_has(0, word);
        self.lemma_own_word_first(reached(self.walk(word)));
    }

    /// The characters on the way to a node begin the way to every node below it.
    pub proof fn lemma_prefix_below(self, top: int, x: int)
        requires
            self.wf(),
            self.has(top),
            self.below(top, x),
        ensures
            self.prefix_of(top).is_prefix_of(self.prefix_of(x)),
        decreases x - top,
    {
        if x == top {
            assert(self.prefix_of(top) =~= self.prefix_of(x).subrange(
                0,
                self.prefix_of(top).len() as int,
            ));
        } else {
            let p = self.parent_of(x);
            self.lemma_prefix_below(top, p);
            assert(self.prefix_of(top) =~= self.prefix_of(x).subrange(
                0,
                self.prefix_of(top).len() as int,
            )) by {
                assert(self.prefix_of(top) =~= self.prefix_of(p).subrange(
                    0,
                    self.prefix_of(top).len() as int,
                ));
            }
        }
    }

    /// The walk along the first characters of a run passes the first nodes of
    /// the walk along the run.
    pub proof fn lemma_walk_of_beginning(self, start: int, s: Seq<char>, k: int)
        requires
            0 <= k <= self.walk_from(start, s).len(),
        ensures
            k <= s.len(),
            self.walk_from(start, s.take(k)) == self.walk_from(start, s).take(k),
        decreases k,
    {
        self.lemma_walk_len(start, s);
        let path = self.walk_from(start, s);
        if k == 0 {
            assert(s.take(0) =~= Seq::<char>::empty());
            assert(path.take(0) =~= Seq::<int>::empty());
        } else {
            let next = self.child_with(start, s[0])->0;
            self.lemma_walk_of_beginning(next, s.drop_first(), k - 1);
            assert(s.take(k).drop_first() =~= s.drop_first().take(k - 1));
            assert(s.take(k)[0] == s[0]);
            assert(path.take(k) =~= seq![next] + self.walk_from(next, s.drop_first()).take(k - 1));
        }
    }

    /// The characters on the way to the node where the walk along a query
    /// ends are the part of the query that the walk consumed.
    pub proof fn lemma_prefix_of_walk_end(self, query: Seq<char>)
        requires
            self.wf(),
        ensures
            self.prefix_of(reached(self.walk(query))) == self.matched(query),
    {
        let path = self.walk(query);
        let k = path.len() as int;
        if k == 0 {
            assert(query.take(0) =~= Seq::<char>::empty());
        } else {
            self.lemma_walk_of_beginning(0, query, k);
            assert(path.take(k) =~= path);
            self.lemma_one_path_to_each_node(self.matched(query), path.last());
        }
    }

    /// The node that a suggestion comes from: it ends the suggested word and
    /// is the node searched from or lies below it.
    pub proof fn lemma_suggestion_origin(self, node: int, amount: int, i: int) -> (id: int)
        requires
            self.wf(),
            0 <= i < self.suggestions_at(node, amount).len(),
        ensures
            self.has(node),
            self.has(id),
            self.below(node, id),
            self.subtree(node).contains(id),
            self.nodes[id].word == Some(self.suggestions_at(node, amount)[i]),
    {
        let all = self.completions(node);
        let word = self.suggestions_at(node, amount)[i];
        assert(all[i] == word);
        assert(all.contains(word));
        self.subtree(node).lemma_filter_map_contains(self.word_at(), word);
        let id = choose|id: int| #[trigger]
            self.subtree(node).contains(id) && (self.word_at())(id) == Some(word);
        self.lemma_subtree_below(node, id);
        id
    }

    /// Law: every suggestion is a word that the trie holds, and it begins
    /// with the characters on the way to the node searched from.
    pub proof fn lemma_suggestions_are_completions(self, node: int, amount: int, i: int)
        requires
            self.wf(),
            0 <= i < self.suggestions_at(node, amount).len(),
        ensures
            self.holds(self.suggestions_at(node, amount)[i]),
            self.prefix_of(node).is_prefix_of(self.suggestions_at(node, amount)[i]),
    {
        let word = self.suggestions_at(node, amount)[i];
        let id = self.lemma_suggestion_origin(node, amount, i);
        self.lemma_word_of_node_is_held(id);
        self.lemma_prefix_below(node, id);
        self.lemma_one_path_to_each_node(word, id);
    }

    /// Law: every word that a search returns is a word that the trie holds,
    /// and it begins with the part of the query that the walk consumed: with
    /// the whole query, where the trie has nodes for all of it.
    pub proof fn lemma_search_returns_completions(self, query: Seq<char>, amount: int, i: int)
        requires
            self.wf(),
            0 <= i < self.search(query, amount).len(),
        ensures
            self.holds(self.search(query, amount)[i]),
            self.matched(query).is_prefix_of(self.search(query, amount)[i]),
            self.walk(query).len() == query.len() ==> query.is_prefix_of(
                self.search(query, amount)[i],
            ),
    {
        self.lemma_suggestions_are_completions(reached(self.walk(query)), amount, i);
        self.lemma_prefix_of_walk_end(query);
        if self.walk(query).len() == query.len() {
            assert(query.take(query.len() as int) =~= query);
        }
    }

    /// Law: no word is suggested twice.
    pub proof fn lemma_suggestions_differ(self, node: int, amount: int)
        requires
            self.wf(),
        ensures
            self.completions(node).no_duplicates(),
            self.suggestions_at(node, amount).no_duplicates(),
    {
        let ids = self.subtree(node);
        self.lemma_subtree_no_duplicates(node);
        assert forall|x: int, y: int|
            ids.contains(x) && ids.contains(y) && (self.word_at())(x) is Some
                && #[trigger] (self.word_at())(x) == #[trigger] (self.word_at())(y) implies x
            == y by {
            self.lemma_subtree_below(node, x);
            self.lemma_subtree_below(node, y);
            self.lemma_word_of_node_is_held(x);
            self.lemma_word_of_node_is_held(y);
        }
        lemma_filter_map_no_duplicates(ids, self.word_at());
    }

    /// The depth-first order from a node holds the depth-first order from
    /// each node in it.
    pub proof fn lemma_subtree_nested(self, top: int, inner: int, x: int)
        requires
            self.wf_arena(),
            self.subtree(top).contains(inner),
            self.subtree(inner).contains(x),
        ensures
            self.subtree(top).contains(x),
        decreases self.size - top, 1int, 0int,
    {
        if inner != top {
            assert(self.forest(top, 0).contains(inner));
            self.lemma_forest_nested(top, 0, inner, x);
            let below = self.forest(top, 0);
            let i = choose|i: int| 0 <= i < below.len() && below[i] == x;
            assert(self.subtree(top)[i + 1] == x);
        }
    }

    /// The subtrees of the children of `parent` from place `from` on hold the
    /// depth-first order from each node in them.
    proof fn lemma_forest_nested(self, parent: int, from: int, inner: int, x: int)
        requires
            self.wf_arena(),
            self.forest(parent, from).contains(inner),
            self.subtree(inner).contains(x),
        ensures
            self.forest(parent, from).contains(x),
        decreases self.size - parent, 0int, self.nodes[parent].children.len() - from,
    {
        let kids = self.nodes[parent].children;
        assert(self.is_child_at(parent, from, kids[from]));
        let first = self.subtree(kids[from]);
        let rest = self.forest(parent, from + 1);
        if first.contains(inner) {
            self.lemma_subtree_nested(kids[from], inner, x);
            let i = choose|i: int| 0 <= i < first.len() && first[i] == x;
            assert((first + rest)[i] == x);
        } else {
            assert(rest.contains(inner));
            self.lemma_forest_nested(parent, from + 1, inner, x);
            let i = choose|i: int| 0 <= i < rest.len() && rest[i] == x;
            assert((first + rest)[first.len() + i] == x);
        }
    }

    /// Every node of a walk stands in the depth-first order from the node
    /// where the walk starts, and so does the node where the walk ends.
    pub proof fn lemma_walk_stays_below(self, start: int, s: Seq<char>)
        requires
            self.wf_arena(),
            self.has(start),
        ensures
            self.subtree(start).contains(landing(start, self.walk_from(start, s))),
        decreases s.len(),
    {
        assert(self.subtree(start)[0] == start);
        if s.len() > 0 {
            if let Some(next) = self.child_with(start, s[0]) {
                let j = self.lemma_scan(start, s[0], 0);
                assert(self.is_child_at(start, j, next));
                self.lemma_forest_has_child(start, 0, j);
                let below = self.forest(start, 0);
                let i = choose|i: int| 0 <= i < below.len() && below[i] == next;
                assert(self.subtree(start)[i + 1] == next);
                self.lemma_walk_stays_below(next, s.drop_first());
                let tail = self.walk_from(next, s.drop_first());
                let end = landing(next, tail);
                self.lemma_subtree_nested(start, next, end);
                if tail.len() > 0 {
                    assert(self.walk_from(start, s).last() == tail.last());
                }
            }
        }
    }

    /// Law: the words that end at or below the node of a query are all the
    /// words of the trie that begin with the query.
    pub proof fn lemma_completions_hold_all(self, query: Seq<char>, word: Seq<char>)
        requires
            self.wf(),
            self.holds(word),
            query.is_prefix_of(word),
        ensures
            self.walk(query).len() == query.len(),
            self.completions(reached(self.walk(query))).contains(word),
    {
        let k = query.len() as int;
        let path = self.walk(word);
        assert(word.take(k) =~= query);
        self.lemma_walk_of_beginning(0, word, k);
        self.lemma_walk_resume(0, word, k);
        let from = reached(self.walk(query));
        let rest = self.walk_from(from, word.skip(k));
        self.lemma_walk_has(0, query);
        self.lemma_walk_stays_below(from, word.skip(k));
        let end = reached(path);
        assert(landing(from, rest) == end) by {
            assert(path =~= self.walk(query) + rest);
            if rest.len() > 0 {
                assert(path.last() == rest.last());
            }
        }
        lemma_filter_map_has(self.subtree(from), self.word_at(), end);
    }

    /// Law: a search without a limit returns every word of the trie that
    /// begins with the query.
    pub proof fn lemma_search_leaves_none_out(self, query: Seq<char>, word: Seq<char>, amount: int)
        requires
            self.wf(),
            self.holds(word),
            query.is_prefix_of(word),
            amount < 0,
        ensures
            self.search(query, amount).contains(word),
    {
        self.lemma_completions_hold_all(query, word);
    }

    /// Law: a limited search returns the first of the words that a search
    /// without a limit returns.
    pub proof fn lemma_limit_cuts_the_end(self, query: Seq<char>, amount: int)
        requires
            amount >= 0,
        ensures
            self.search(query, amount).is_prefix_of(self.search(query, -1)),
            self.search(query, amount).len() == if amount < self.search(query, -1).len() {
                amount
            } else {
                self.search(query, -1).len() as int
            },
    {
        let all = self.search(query, -1);
        assert(self.search(query, amount) =~= all.subrange(
            0,
            self.search(query, amount).len() as int,
        ));
    }

    /// Law: an insertion adds at most the inserted word to the words that the
    /// trie holds, and takes none away. It adds the word where the word gets
    /// a node of its own.
    pub proof fn lemma_insert_holds(self, word: Seq<char>, other: Seq<char>)
        requires
            self.wf(),
        ensures
            self.insert(word).holds(other) <==> self.holds(other) || (other == word
                && self.missing(word) > 0),
    {
        let new = self.insert(word);
        self.lemma_walk_len(0, word);
        self.lemma_insert_wf(word);
        if self.missing(word) == 0 {
            self.lemma_insert_along_known_path(word);
        } else {
            self.lemma_insert_walk(word);
            self.lemma_cursor_has(word, word.len() as int);
            self.lemma_insert_data(word, self.cursor(word, word.len() as int));
            assert(new.holds(word));
            if self.holds(other) {
                let node = reached(self.walk(other));
                self.lemma_walk_has(0, other);
                self.lemma_insert_keeps_words(word, node);
                self.lemma_insert_keeps_walk(word, 0, other);
            }
            if new.holds(other) && other != word {
                let node = reached(new.walk(other));
                new.lemma_walk_has(0, other);
                self.lemma_insert_data(word, node);
                self.lemma_word_of_node_is_held(node);
            }
        }
    }

    /// Law: every word that a trie built from nothing holds is one of the
    /// words that were inserted.
    pub proof fn lemma_held_words_were_inserted(words: Seq<Seq<char>>, word: Seq<char>)
        requires
            TrieModel::empty().insert_all(words).holds(word),
        ensures
            words.contains(word),
        decreases words.len(),
    {
        let empty = TrieModel::empty();
        if words.len() == 0 {
            assert(empty.walk(word) =~= Seq::<int>::empty()) by {
                if word.len() > 0 {
                    assert(empty.scan(0, word[0], 0) is None);
                }
            }
        } else {
            let before = empty.insert_all(words.drop_last());
            TrieModel::lemma_empty_wf();
            empty.lemma_insert_all(words.drop_last());
            before.lemma_insert_holds(words.last(), word);
            if before.holds(word) {
                Self::lemma_held_words_were_inserted(words.drop_last(), word);
                let i = choose|i: int| 0 <= i < words.drop_last().len() && words.drop_last()[i] == word;
                assert(words[i] == word);
            } else {
                assert(words[words.len() - 1] == word);
            }
        }
    }

    /// Law: a search in a trie built from nothing returns only words that
    /// were inserted.
    pub proof fn lemma_suggestions_were_inserted(
        words: Seq<Seq<char>>,
        query: Seq<char>,
        amount: int,
        i: int,
    )
        requires
            0 <= i < TrieModel::empty().insert_all(words).search(query, amount).len(),
        ensures
            words.contains(TrieModel::empty().insert_all(words).search(query, amount)[i]),
    {
        let trie = TrieModel::empty().insert_all(words);
        TrieModel::lemma_empty_wf();
        TrieModel::empty().lemma_insert_all(words);
        trie.lemma_search_returns_completions(query, amount, i);
        Self::lemma_held_words_were_inserted(words, trie.search(query, amount)[i]);
    }
}

} // verus!
