//! Taking a trie apart for a snapshot, and putting one together again from
//! parts that may come from anywhere.

use crate::model::{ids_of, TrieModel};
use crate::trie::{arena_model, Trie, TrieNode};
use std::collections::HashMap;
use vstd::prelude::*;
use vstd::relations::injective_on;
use vstd::set_lib::{lemma_int_range, lemma_map_size, lemma_subset_equality, set_int_range};
use vstd::string::StrSliceExecFns;

verus! {

/// The keys 0 ..= `size` of a table.
pub open spec fn key_range(size: int) -> Set<i32> {
    Set::new(|key: i32| 0 <= key <= size)
}

/// There are `size + 1` keys from 0 to `size`.
proof fn lemma_key_range(size: int)
    requires
        0 <= size <= i32::MAX,
    ensures
        key_range(size).finite(),
        key_range(size).len() == size + 1,
{
    let ints = set_int_range(0, size + 1);
    let narrow = |i: int| i as i32;
    lemma_int_range(0, size + 1);
    assert(injective_on(narrow, ints));
    assert(ints.map(narrow) =~= key_range(size)) by {
        assert forall|key: i32| key_range(size).contains(key) implies ints.map(narrow).contains(
            key,
        ) by {
            assert(ints.contains(key as int) && narrow(key as int) == key);
        }
    }
    lemma_map_size(ints, key_range(size), narrow);
}

impl TrieModel {
    /// The link at place `j` below `p` comes before the link at place `place`
    /// below `parent`, when the links are taken node by node.
    pub open spec fn comes_before(p: int, j: int, parent: int, place: int) -> bool {
        p < parent || (p == parent && j < place)
    }

    /// `child` hangs on one of the links before the link at place `place`
    /// below `parent`.
    pub open spec fn linked_before(self, parent: int, place: int, child: int) -> bool {
        exists|p: int, j: int|
            Self::comes_before(p, j, parent, place) && #[trigger] self.is_child_at(p, j, child)
    }

    /// The links before the link at place `place` below `parent` lead upwards
    /// in the arena, and no two of them lead to one node.
    pub open spec fn tree_before(self, parent: int, place: int) -> bool {
        &&& forall|p: int, j: int, c: int|
            Self::comes_before(p, j, parent, place) && #[trigger] self.is_child_at(p, j, c) ==> p
                < c <= self.size
        &&& forall|pa: int, ja: int, pb: int, jb: int, c: int|
            #![trigger self.is_child_at(pa, ja, c), self.is_child_at(pb, jb, c)]
            Self::comes_before(pa, ja, parent, place) && Self::comes_before(pb, jb, parent, place)
                && self.is_child_at(pa, ja, c) && self.is_child_at(pb, jb, c) ==> pa == pb && ja
                == jb
    }

    /// No two children of a node before `parent` hold the same character,
    /// and none of the children of `parent` before place `place` holds the
    /// character of a child before it.
    pub open spec fn letters_differ_before(self, parent: int, place: int) -> bool {
        forall|p: int, ja: int, ca: int, jb: int, cb: int|
            #![trigger self.is_child_at(p, ja, ca), self.is_child_at(p, jb, cb)]
            Self::comes_before(p, jb, parent, place) && ja < jb && self.is_child_at(p, ja, ca)
                && self.is_child_at(p, jb, cb) ==> self.nodes[ca].data != self.nodes[cb].data
    }

    /// The nodes before `upto` that end a word carry the word that their
    /// path spells.
    pub open spec fn words_spelled_before(self, upto: int) -> bool {
        forall|n: int| #[trigger]
            self.has(n) && n < upto ==> (self.nodes[n].word matches Some(w) ==> self.spells(w, n))
    }
}

impl Trie {
    /// The table of nodes and the size: what a snapshot holds. `from_parts`
    /// makes the trie again from them.
    pub fn into_parts(self) -> (parts: (HashMap<i32, TrieNode>, i32))
        requires
            self@.wf(),
        ensures
            arena_model(parts.0@, parts.1 as int) == self@,
            arena_model(parts.0@, parts.1 as int).wf(),
    {
        (self.data, self.current_size)
    }

    /// The trie that a table of nodes and a size make, where they make one:
    /// the keys of the table are the identities 0 ..= size, the root is in
    /// order, the child links form a tree that leads upwards in the table, no
    /// two children of a node hold the same character, every word stands at
    /// the node that its characters lead to, and every branch ends with a word.
    pub fn from_parts(data: HashMap<i32, TrieNode>, current_size: i32) -> (trie: Option<Trie>)
        ensures
            match trie {
                Some(trie) => trie@ == arena_model(data@, current_size as int) && trie@.wf(),
                None => !arena_model(data@, current_size as int).wf(),
            },
    {
        let candidate = Trie { data, current_size };
        if candidate.is_well_formed() {
            Some(candidate)
        } else {
            None
        }
    }

    /// Whether the table and the size make a trie.
    fn is_well_formed(&self) -> (yes: bool)
        ensures
            yes == self@.wf(),
    {
        self.has_keys() && self.root_is_plain() && self.links_form_tree() && self.letters_differ()
            && self.words_are_spelled() && self.leaves_end_words()
    }

    /// Whether the keys of the table are the identities 0 ..= size.
    fn has_keys(&self) -> (yes: bool)
        ensures
            yes == self@.wf_keys(),
    {
        if self.current_size < 0 {
            return false;
        }
        proof {
            lemma_key_range(self.current_size as int);
            if self@.wf_keys() {
                assert(self.data@.dom() =~= key_range(self.current_size as int)) by {
                    assert forall|key: i32|
                        self.data@.dom().contains(key) == key_range(
                            self.current_size as int,
                        ).contains(key) by {
                        assert(self@.nodes.contains_key(key as int) == self.data@.contains_key(key));
                    }
                }
            }
        }
        if self.data.len() != self.current_size as usize + 1 {
            return false;
        }
        let mut id: i32 = 0;
        loop
            invariant
                0 <= id <= self.current_size,
                forall|key: i32| 0 <= key < id ==> self.data@.contains_key(key),
            ensures
                forall|key: i32| 0 <= key <= self.current_size ==> self.data@.contains_key(key),
            decreases self.current_size - id,
        {
            if !self.data.contains_key(&id) {
                proof {
                    assert(!self@.nodes.contains_key(id as int));
                }
                return false;
            }
            if id == self.current_size {
                break ;
            }
            id += 1;
        }
        proof {
            assert(key_range(self.current_size as int).subset_of(self.data@.dom()));
            lemma_subset_equality(key_range(self.current_size as int), self.data@.dom());
            assert forall|id: int| #[trigger]
                self@.nodes.contains_key(id) <==> 0 <= id <= self.current_size by {
                if self@.nodes.contains_key(id) {
                    assert(key_range(self.current_size as int).contains(id as i32));
                }
                if 0 <= id <= self.current_size {
                    assert(key_range(self.current_size as int).contains(id as i32));
                }
            }
        }
        true
    }

    /// Whether the root holds the sentinel and ends no word.
    fn root_is_plain(&self) -> (yes: bool)
        requires
            self@.wf_keys(),
        ensures
            yes == self@.wf_root(),
    {
        match self.get_trie_node(0) {
            TrieNode::Incomplete { node } => node.data == ' ',
            TrieNode::Complete { node: _, word: _ } => false,
        }
    }

    /// Whether every link leads upwards in the arena, no node hangs on two
    /// links, and every node but the root hangs on one.
    fn links_form_tree(&self) -> (yes: bool)
        requires
            self@.wf_keys(),
        ensures
            yes == (self@.wf_links() && self@.wf_tree()),
    {
        let total = self.current_size as usize + 1;
        let mut seen: Vec<bool> = Vec::new();
        while seen.len() < total
            invariant
                seen.len() <= total,
                forall|c: int| 0 <= c < seen.len() ==> !seen@[c],
            decreases total - seen.len(),
        {
            seen.push(false);
        }
        let mut parent: i32 = 0;
        loop
            invariant
                self@.wf_keys(),
                0 <= parent <= self.current_size,
                seen.len() == self.current_size + 1,
                self@.tree_before(parent as int, 0),
                forall|c: int|
                    0 <= c <= self.current_size ==> (seen@[c] <==> self@.linked_before(
                        parent as int,
                        0,
                        c,
                    )),
            ensures
                self@.wf_links(),
                forall|pa: int, ja: int, pb: int, jb: int, c: int|
                    #![trigger self@.is_child_at(pa, ja, c), self@.is_child_at(pb, jb, c)]
                    self@.is_child_at(pa, ja, c) && self@.is_child_at(pb, jb, c) ==> pa == pb && ja
                        == jb,
                seen.len() == self.current_size + 1,
                forall|c: int| 0 <= c <= self.current_size ==> (seen@[c] <==> self@.has_parent(c)),
            decreases self.current_size - parent,
        {
            let children = self.get_trie_node(parent).get_node().get_children();
            let mut place: usize = 0;
            while place < children.len()
                invariant
                    self@.wf_keys(),
                    0 <= parent <= self.current_size,
                    place <= children.len(),
                    ids_of(children@) == self@.nodes[parent as int].children,
                    seen.len() == self.current_size + 1,
                    self@.tree_before(parent as int, place as int),
                    forall|c: int|
                        0 <= c <= self.current_size ==> (seen@[c] <==> self@.linked_before(
                            parent as int,
                            place as int,
                            c,
                        )),
                decreases children.len() - place,
            {
                let child = children[place];
                assert(self@.is_child_at(parent as int, place as int, child as int));
                if child <= parent || child > self.current_size {
                    return false;
                }
                if seen[child as usize] {
                    proof {
                        let (p, j) = choose|p: int, j: int|
                            TrieModel::comes_before(p, j, parent as int, place as int)
                                && #[trigger] self@.is_child_at(p, j, child as int);
                        assert(self@.is_child_at(p, j, child as int));
                    }
                    return false;
                }
                let ghost seen_before = seen@;
                seen.set(child as usize, true);
                proof {
                    assert forall|c: int| 0 <= c <= self.current_size implies (seen@[c]
                        <==> self@.linked_before(parent as int, place as int + 1, c)) by {
                        if c == child as int {
                            assert(TrieModel::comes_before(
                                parent as int,
                                place as int,
                                parent as int,
                                place as int + 1,
                            ));
                        } else {
                            if self@.linked_before(parent as int, place as int + 1, c) {
                                let (p, j) = choose|p: int, j: int|
                                    TrieModel::comes_before(p, j, parent as int, place as int + 1)
                                        && #[trigger] self@.is_child_at(p, j, c);
                                assert(TrieModel::comes_before(p, j, parent as int, place as int));
                            }
                            if self@.linked_before(parent as int, place as int, c) {
                                let (p, j) = choose|p: int, j: int|
                                    TrieModel::comes_before(p, j, parent as int, place as int)
                                        && #[trigger] self@.is_child_at(p, j, c);
                                assert(TrieModel::comes_before(p, j, parent as int, place as int + 1));
                            }
                        }
                    }
                    assert forall|pa: int, ja: int, pb: int, jb: int, c: int|
                        #![trigger self@.is_child_at(pa, ja, c), self@.is_child_at(pb, jb, c)]
                        TrieModel::comes_before(pa, ja, parent as int, place as int + 1)
                            && TrieModel::comes_before(pb, jb, parent as int, place as int + 1)
                            && self@.is_child_at(pa, ja, c) && self@.is_child_at(
                            pb,
                            jb,
                            c,
                        ) implies pa == pb && ja == jb by {
                        let first_is_new = pa == parent as int && ja == place as int;
                        let second_is_new = pb == parent as int && jb == place as int;
                        if first_is_new && !second_is_new {
                            assert(TrieModel::comes_before(pb, jb, parent as int, place as int));
                            assert(self@.linked_before(parent as int, place as int, c));
                        } else if second_is_new && !first_is_new {
                            assert(TrieModel::comes_before(pa, ja, parent as int, place as int));
                            assert(self@.linked_before(parent as int, place as int, c));
                        } else if !first_is_new && !second_is_new {
                            assert(TrieModel::comes_before(pa, ja, parent as int, place as int));
                            assert(TrieModel::comes_before(pb, jb, parent as int, place as int));
                        }
                    }
                    assert forall|p: int, j: int, c: int|
                        TrieModel::comes_before(p, j, parent as int, place as int + 1)
                            && #[trigger] self@.is_child_at(p, j, c) implies p < c
                        <= self@.size by {
                        if !(p == parent as int && j == place as int) {
                            assert(TrieModel::comes_before(p, j, parent as int, place as int));
                        }
                    }
                }
                place += 1;
            }
            proof {
                // The links below `parent` are done: what comes before the
                // end of its children comes before the next node.
                let next = parent as int + 1;
                let end = children.len() as int;
                assert forall|p: int, j: int, c: int| #[trigger]
                    self@.is_child_at(p, j, c) implies (TrieModel::comes_before(p, j, next, 0)
                    <==> TrieModel::comes_before(p, j, parent as int, end)) by {}
                assert forall|c: int| 0 <= c <= self.current_size implies (self@.linked_before(
                    next,
                    0,
                    c,
                ) <==> self@.linked_before(parent as int, end, c)) by {
                    if self@.linked_before(next, 0, c) {
                        let (p, j) = choose|p: int, j: int|
                            TrieModel::comes_before(p, j, next, 0) && #[trigger] self@.is_child_at(
                                p,
                                j,
                                c,
                            );
                        assert(TrieModel::comes_before(p, j, parent as int, end));
                    }
                    if self@.linked_before(parent as int, end, c) {
                        let (p, j) = choose|p: int, j: int|
                            TrieModel::comes_before(p, j, parent as int, end)
                                && #[trigger] self@.is_child_at(p, j, c);
                        assert(TrieModel::comes_before(p, j, next, 0));
                    }
                }
                assert(self@.tree_before(next, 0));
            }
            if parent == self.current_size {
                proof {
                    let next = parent as int + 1;
                    assert forall|p: int, j: int, c: int| #[trigger]
                        self@.is_child_at(p, j, c) implies TrieModel::comes_before(p, j, next, 0) by {}
                    assert forall|c: int| 0 <= c <= self.current_size implies (seen@[c]
                        <==> self@.has_parent(c)) by {
                        if self@.has_parent(c) {
                            let (p, j) = choose|p: int, j: int| self@.is_child_at(p, j, c);
                            assert(TrieModel::comes_before(p, j, next, 0));
                            assert(self@.linked_before(next, 0, c));
                        }
                        if self@.linked_before(next, 0, c) {
                            let (p, j) = choose|p: int, j: int|
                                TrieModel::comes_before(p, j, next, 0)
                                    && #[trigger] self@.is_child_at(p, j, c);
                        }
                    }
                }
                break ;
            }
            parent += 1;
        }
        let mut id: usize = 1;
        while id < seen.len()
            invariant
                1 <= id <= seen.len(),
                seen.len() == self.current_size + 1,
                forall|c: int| 0 <= c <= self.current_size ==> (seen@[c] <==> self@.has_parent(c)),
                forall|c: int| 1 <= c < id ==> #[trigger] self@.has_parent(c),
            decreases seen.len() - id,
        {
            if !seen[id] {
                return false;
            }
            id += 1;
        }
        true
    }

    /// Whether no two children of one node hold the same character.
    fn letters_differ(&self) -> (yes: bool)
        requires
            self@.wf_keys(),
            self@.wf_links(),
        ensures
            yes == self@.wf_letters(),
    {
        let mut parent: i32 = 0;
        loop
            invariant
                self@.wf_keys(),
                self@.wf_links(),
                0 <= parent <= self.current_size,
                self@.letters_differ_before(parent as int, 0),
            ensures
                self@.wf_letters(),
            decreases self.current_size - parent,
        {
            let children = self.get_trie_node(parent).get_node().get_children();
            let mut place: usize = 0;
            while place < children.len()
                invariant
                    self@.wf_keys(),
                    self@.wf_links(),
                    0 <= parent <= self.current_size,
                    place <= children.len(),
                    ids_of(children@) == self@.nodes[parent as int].children,
                    self@.letters_differ_before(parent as int, place as int),
                decreases children.len() - place,
            {
                let child = children[place];
                assert(self@.is_child_at(parent as int, place as int, child as int));
                let letter = self.get_trie_node(child).get_node().data;
                let mut earlier: usize = 0;
                while earlier < place
                    invariant
                        self@.wf_keys(),
                        self@.wf_links(),
                        0 <= parent <= self.current_size,
                        earlier <= place < children.len(),
                        ids_of(children@) == self@.nodes[parent as int].children,
                        child == children@[place as int],
                        letter == self@.nodes[child as int].data,
                        forall|j: int|
                            0 <= j < earlier ==> self@.nodes[#[trigger] ids_of(children@)[j]].data
                                != letter,
                    decreases place - earlier,
                {
                    let sibling = children[earlier];
                    assert(self@.is_child_at(parent as int, earlier as int, sibling as int));
                    if self.get_trie_node(sibling).get_node().data == letter {
                        proof {
                            assert(self@.is_child_at(parent as int, place as int, child as int));
                        }
                        return false;
                    }
                    earlier += 1;
                }
                proof {
                    assert forall|p: int, ja: int, ca: int, jb: int, cb: int|
                        #![trigger self@.is_child_at(p, ja, ca), self@.is_child_at(p, jb, cb)]
                        TrieModel::comes_before(p, jb, parent as int, place as int + 1) && ja < jb
                            && self@.is_child_at(p, ja, ca) && self@.is_child_at(
                            p,
                            jb,
                            cb,
                        ) implies self@.nodes[ca].data != self@.nodes[cb].data by {
                        if p == parent as int && jb == place as int {
                            assert(ca == ids_of(children@)[ja]);
                        } else {
                            assert(TrieModel::comes_before(p, jb, parent as int, place as int));
                        }
                    }
                }
                place += 1;
            }
            proof {
                let next = parent as int + 1;
                assert forall|p: int, ja: int, ca: int, jb: int, cb: int|
                    #![trigger self@.is_child_at(p, ja, ca), self@.is_child_at(p, jb, cb)]
                    TrieModel::comes_before(p, jb, next, 0) && ja < jb && self@.is_child_at(
                        p,
                        ja,
                        ca,
                    ) && self@.is_child_at(p, jb, cb) implies self@.nodes[ca].data
                    != self@.nodes[cb].data by {
                    assert(TrieModel::comes_before(p, jb, parent as int, children.len() as int));
                }
            }
            if parent == self.current_size {
                proof {
                    let next = parent as int + 1;
                    assert forall|p: int, ja: int, ca: int, jb: int, cb: int|
                        #![trigger self@.is_child_at(p, ja, ca), self@.is_child_at(p, jb, cb)]
                        self@.is_child_at(p, ja, ca) && self@.is_child_at(p, jb, cb) && ja
                            != jb implies self@.nodes[ca].data != self@.nodes[cb].data by {
                        if ja < jb {
                            assert(TrieModel::comes_before(p, jb, next, 0));
                        } else {
                            assert(TrieModel::comes_before(p, ja, next, 0));
                        }
                    }
                }
                break ;
            }
            parent += 1;
        }
        true
    }

    /// Whether every node that ends a word carries the word that its path spells.
    fn words_are_spelled(&self) -> (yes: bool)
        requires
            self@.wf_arena(),
        ensures
            yes == self@.wf_words(),
    {
        let mut id: i32 = 0;
        loop
            invariant
                self@.wf_arena(),
                0 <= id <= self.current_size,
                self@.words_spelled_before(id as int),
            ensures
                self@.wf_words(),
            decreases self.current_size - id,
        {
            assert(self@.has(id as int));
            match self.get_trie_node(id) {
                TrieNode::Complete { node: _, word } => {
                    let length = word.as_str().unicode_len();
                    let end = self.walk_word(word.as_str());
                    if length == 0 || end.0 != length || end.1 != id {
                        proof {
                            assert(!self@.spells(word@, id as int));
                        }
                        return false;
                    }
                },
                TrieNode::Incomplete { node: _ } => {},
            }
            if id == self.current_size {
                break ;
            }
            id += 1;
        }
        true
    }

    /// Whether every node without children, but for the root, ends a word.
    fn leaves_end_words(&self) -> (yes: bool)
        requires
            self@.wf_keys(),
        ensures
            yes == self@.wf_leaves(),
    {
        let mut id: i32 = 0;
        loop
            invariant
                self@.wf_keys(),
                0 <= id <= self.current_size,
                forall|n: int| #[trigger]
                    self@.has(n) && 0 < n < id && self@.nodes[n].children.len() == 0
                        ==> self@.nodes[n].word is Some,
            ensures
                self@.wf_leaves(),
            decreases self.current_size - id,
        {
            if id > 0 {
                match self.get_trie_node(id) {
                    TrieNode::Incomplete { node } => {
                        if node.get_children().len() == 0 {
                            proof {
                                assert(self@.has(id as int));
                            }
                            return false;
                        }
                    },
                    TrieNode::Complete { node: _, word: _ } => {},
                }
            }
            if id == self.current_size {
                break ;
            }
            id += 1;
        }
        true
    }
}

} // verus!
