//! The mathematical model of the trie: a table of nodes keyed by identity,
//! and the functions on it that the contracts of the executable code speak of.

use vstd::prelude::*;

verus! {

/// What one arena entry holds: its character, the identities of its children
/// in the order they were attached, and the word that ends here, if any.
pub struct NodeModel {
    pub data: char,
    pub children: Seq<int>,
    pub word: Option<Seq<char>>,
}

impl NodeModel {
    /// The node with `child` attached as its last child.
    pub open spec fn with_child(self, child: int) -> NodeModel {
        NodeModel { data: self.data, children: self.children.push(child), word: self.word }
    }

    /// The childless node for the character at place `at` of `word`. It
    /// carries `word` where that character is the last one.
    pub open spec fn fresh(word: Seq<char>, at: int) -> NodeModel {
        NodeModel {
            data: word[at],
            children: Seq::empty(),
            word: if at == word.len() - 1 {
                Some(word)
            } else {
                None
            },
        }
    }
}

/// The arena as a map from identity to node, with the highest identity in use.
/// Identity 0 is the root.
pub struct TrieModel {
    pub nodes: Map<int, NodeModel>,
    pub size: int,
}

/// Node identities as mathematical integers.
pub open spec fn ids_of(ids: Seq<i32>) -> Seq<int> {
    ids.map_values(|id: i32| id as int)
}

/// The character held by the root. It is never compared with input.
pub open spec fn root_char() -> char {
    ' '
}

/// `words` cut down to `amount` entries. A negative `amount` sets no limit.
pub open spec fn capped(words: Seq<Seq<char>>, amount: int) -> Seq<Seq<char>> {
    if 0 <= amount < words.len() {
        words.take(amount)
    } else {
        words
    }
}

/// The node a path ends at: its last entry, or the root for the empty path.
pub open spec fn reached(path: Seq<int>) -> int {
    if path.len() == 0 {
        0
    } else {
        path.last()
    }
}

impl TrieModel {
    /// The arena of a new trie: the root alone.
    pub open spec fn empty() -> TrieModel {
        TrieModel {
            nodes: Map::empty().insert(
                0int,
                NodeModel { data: root_char(), children: Seq::empty(), word: None },
            ),
            size: 0,
        }
    }

    /// `id` names a node of the arena.
    pub open spec fn has(self, id: int) -> bool {
        0 <= id <= self.size
    }

    /// `child` is the `j`-th child of `parent`.
    pub open spec fn is_child_at(self, parent: int, j: int, child: int) -> bool {
        &&& self.has(parent)
        &&& 0 <= j < self.nodes[parent].children.len()
        &&& self.nodes[parent].children[j] == child
    }

    /// `child` hangs below `parent`, at some place.
    pub open spec fn is_parent(self, parent: int, child: int) -> bool {
        exists|j: int| self.is_child_at(parent, j, child)
    }

    /// `child` is attached below some node.
    pub open spec fn has_parent(self, child: int) -> bool {
        exists|p: int, j: int| self.is_child_at(p, j, child)
    }

    /// The identities 0 ..= size are exactly the keys of the table.
    pub open spec fn wf_keys(self) -> bool {
        &&& 0 <= self.size
        &&& forall|id: int| #[trigger] self.nodes.contains_key(id) <==> 0 <= id <= self.size
    }

    /// The root holds the sentinel and ends no word.
    pub open spec fn wf_root(self) -> bool {
        &&& self.nodes[0].data == root_char()
        &&& self.nodes[0].word is None
    }

    /// Every child link leads to a node of the arena with a higher identity
    /// than its parent.
    pub open spec fn wf_links(self) -> bool {
        forall|p: int, j: int, c: int| #[trigger] self.is_child_at(p, j, c) ==> p < c <= self.size
    }

    /// The table is an arena: its keys, its root and its links are in order.
    pub open spec fn wf_arena(self) -> bool {
        &&& self.wf_keys()
        &&& self.wf_root()
        &&& self.wf_links()
    }

    /// Every node but the root hangs below exactly one parent, at one place.
    pub open spec fn wf_tree(self) -> bool {
        &&& forall|pa: int, ja: int, pb: int, jb: int, c: int|
            #![trigger self.is_child_at(pa, ja, c), self.is_child_at(pb, jb, c)]
            self.is_child_at(pa, ja, c) && self.is_child_at(pb, jb, c) ==> pa == pb && ja == jb
        &&& forall|c: int| 1 <= c <= self.size ==> #[trigger] self.has_parent(c)
    }

    /// No two children of one node hold the same character.
    pub open spec fn wf_letters(self) -> bool {
        forall|p: int, ja: int, ca: int, jb: int, cb: int|
            #![trigger self.is_child_at(p, ja, ca), self.is_child_at(p, jb, cb)]
            self.is_child_at(p, ja, ca) && self.is_child_at(p, jb, cb) && ja != jb
                ==> self.nodes[ca].data != self.nodes[cb].data
    }

    /// The walk along `word` from the root consumes all of it and ends at `node`.
    pub open spec fn spells(self, word: Seq<char>, node: int) -> bool {
        &&& word.len() > 0
        &&& self.walk(word).len() == word.len()
        &&& self.walk(word).last() == node
    }

    /// A node that ends a word carries the word that its path spells.
    pub open spec fn wf_words(self) -> bool {
        forall|n: int| #[trigger]
            self.has(n) ==> (self.nodes[n].word matches Some(w) ==> self.spells(w, n))
    }

    /// Every node without children, but for the root, ends a word.
    pub open spec fn wf_leaves(self) -> bool {
        forall|n: int| #[trigger]
            self.has(n) && n > 0 && self.nodes[n].children.len() == 0 ==> self.nodes[n].word is Some
    }

    /// The invariant of the arena.
    pub open spec fn wf(self) -> bool {
        &&& self.wf_arena()
        &&& self.wf_tree()
        &&& self.wf_letters()
        &&& self.wf_words()
        &&& self.wf_leaves()
    }

    /// The first child of `parent`, looking from place `from` on, that holds `c`.
    pub open spec fn scan(self, parent: int, c: char, from: int) -> Option<int>
        decreases self.nodes[parent].children.len() - from,
    {
        let kids = self.nodes[parent].children;
        if 0 <= from < kids.len() {
            if self.nodes[kids[from]].data == c {
                Some(kids[from])
            } else {
                self.scan(parent, c, from + 1)
            }
        } else {
            None
        }
    }

    /// The child at place `k` below `parent` holds `c`.
    pub open spec fn holds_at(self, parent: int, k: int, c: char) -> bool {
        self.nodes[self.nodes[parent].children[k]].data == c
    }

    /// `x` is the child at place `j` below `parent`, it holds `c`, and no child
    /// from place `from` up to `j` does.
    pub open spec fn found_at(self, parent: int, c: char, from: int, j: int, x: int) -> bool {
        &&& from <= j
        &&& self.is_child_at(parent, j, x)
        &&& self.holds_at(parent, j, c)
        &&& forall|k: int| from <= k < j ==> !#[trigger] self.holds_at(parent, k, c)
    }

    /// The first child of `parent` that holds `c`.
    pub open spec fn child_with(self, parent: int, c: char) -> Option<int> {
        self.scan(parent, c, 0)
    }

    /// The nodes passed while consuming `s` from `start`, one per character,
    /// up to the first character that has no matching child.
    pub open spec fn walk_from(self, start: int, s: Seq<char>) -> Seq<int>
        decreases s.len(),
    {
        if s.len() == 0 {
            Seq::empty()
        } else {
            match self.child_with(start, s[0]) {
                Some(next) => seq![next] + self.walk_from(next, s.drop_first()),
                None => Seq::empty(),
            }
        }
    }

    /// The walk along `s` from the root.
    pub open spec fn walk(self, s: Seq<char>) -> Seq<int> {
        self.walk_from(0, s)
    }

    /// `node` and everything below it, in depth-first order, the children of
    /// each node in the order they were attached.
    pub open spec fn subtree(self, node: int) -> Seq<int>
        decreases self.size - node, 1int, 0int,
    {
        if self.has(node) {
            seq![node] + self.forest(node, 0)
        } else {
            Seq::empty()
        }
    }

    /// The subtrees of the children of `parent` from place `from` on, one after
    /// the other.
    pub open spec fn forest(self, parent: int, from: int) -> Seq<int>
        decreases self.size - parent, 0int, self.nodes[parent].children.len() - from,
    {
        let kids = self.nodes[parent].children;
        if self.has(parent) && 0 <= from < kids.len() {
            let first = if parent < kids[from] <= self.size {
                self.subtree(kids[from])
            } else {
                Seq::empty()
            };
            first + self.forest(parent, from + 1)
        } else {
            Seq::empty()
        }
    }

    /// The word that ends at a node, for each node.
    pub open spec fn word_at(self) -> spec_fn(int) -> Option<Seq<char>> {
        |id: int| self.nodes[id].word
    }

    /// The words that end at the nodes of `ids`, in the order of `ids`.
    pub open spec fn words_of(self, ids: Seq<int>) -> Seq<Seq<char>> {
        ids.filter_map(self.word_at())
    }

    /// The words that end at or below `node`, in depth-first order.
    pub open spec fn completions(self, node: int) -> Seq<Seq<char>> {
        self.words_of(self.subtree(node))
    }

    /// What a search that stands at `node` returns.
    pub open spec fn suggestions_at(self, node: int, amount: int) -> Seq<Seq<char>> {
        capped(self.completions(node), amount)
    }

    /// The cache after a search for `word` that started with the cache `ids`:
    /// the walk goes on from the last cached node with the characters that
    /// `ids` does not cover.
    pub open spec fn resumed_path(self, word: Seq<char>, ids: Seq<int>) -> Seq<int> {
        ids + self.walk_from(reached(ids), word.skip(ids.len() as int))
    }

    /// What a search for `word` returns when it starts with the cache `ids`.
    pub open spec fn resumed_search(self, word: Seq<char>, ids: Seq<int>, amount: int) -> Seq<
        Seq<char>,
    > {
        self.suggestions_at(reached(self.resumed_path(word, ids)), amount)
    }

    /// A search for `word` can start from the cache `ids`: the cache covers no
    /// more characters than `word` has, and it ends at a node of the arena.
    pub open spec fn can_resume(self, word: Seq<char>, ids: Seq<int>) -> bool {
        &&& ids.len() <= word.len()
        &&& self.has(reached(ids))
    }

    /// What a search for `word` returns when it starts at the root.
    pub open spec fn search(self, word: Seq<char>, amount: int) -> Seq<Seq<char>> {
        self.suggestions_at(reached(self.walk(word)), amount)
    }
}

impl TrieModel {
    /// What `scan` finds: the first child from place `from` on that holds `c`.
    /// The result is the place of that child, where there is one.
    pub proof fn lemma_scan(self, parent: int, c: char, from: int) -> (j: int)
        requires
            self.has(parent),
            0 <= from,
        ensures
            self.scan(parent, c, from) matches Some(x) ==> self.found_at(parent, c, from, j, x),
            self.scan(parent, c, from) is None ==> forall|k: int|
                from <= k < self.nodes[parent].children.len() ==> !#[trigger] self.holds_at(
                    parent,
                    k,
                    c,
                ),
        decreases self.nodes[parent].children.len() - from,
    {
        let kids = self.nodes[parent].children;
        if from < kids.len() {
            if self.nodes[kids[from]].data == c {
                from
            } else {
                assert(!self.holds_at(parent, from, c));
                let j = self.lemma_scan(parent, c, from + 1);
                if self.scan(parent, c, from + 1) is Some {
                    assert forall|k: int| from <= k < j implies !#[trigger] self.holds_at(
                        parent,
                        k,
                        c,
                    ) by {
                        if k > from {
                        }
                    }
                }
                j
            }
        } else {
            from
        }
    }

    /// A child found by its character is a node of the arena, hangs below the
    /// node it was looked for under, and holds that character.
    pub proof fn lemma_child_with(self, parent: int, c: char)
        requires
            self.wf_arena(),
            self.has(parent),
        ensures
            self.child_with(parent, c) matches Some(x) ==> parent < x <= self.size
                && self.nodes[x].data == c && self.is_parent(parent, x),
    {
        let j = self.lemma_scan(parent, c, 0);
        if let Some(x) = self.child_with(parent, c) {
            assert(self.is_child_at(parent, j, x));
        }
    }

    /// The arena of a new trie meets the invariant.
    pub proof fn lemma_empty_wf()
        ensures
            TrieModel::empty().wf(),
    {
    }
}

} // verus!
