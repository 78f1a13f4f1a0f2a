//! The trie: a table of nodes addressed by integer identity, insertion of
//! words and the search for the words below a prefix.

use crate::memory::AutoCompleteMemory;
use crate::model::{ids_of, reached, NodeModel, TrieModel};
use crate::traversal::lemma_later_not_earlier;
use std::collections::HashMap;
use vstd::prelude::*;
use vstd::std_specs::iter::IteratorSpec;
use vstd::string::StrSliceExecFns;

verus! {

/// What `check_for_character` returns when no child holds the character.
pub const INVALID: i32 = -1;

/// The part that both kinds of trie node share.
pub struct Node {
    pub data: char,
    pub children: Vec<i32>,
}

/// A node of the trie. `Complete` carries the word that ends at it.
pub enum TrieNode {
    Incomplete { node: Node },
    Complete { node: Node, word: String },
}

impl Node {
    /// A node that holds `value` and has no children.
    pub fn new(value: char) -> (node: Self)
        ensures
            node.data == value,
            node.children@ == Seq::<i32>::empty(),
    {
        Self { data: value, children: Vec::new() }
    }

    /// The identities of the children, in the order they were attached.
    pub fn get_children(&self) -> (children: &Vec<i32>)
        ensures
            children == &self.children,
    {
        &self.children
    }
}

impl View for TrieNode {
    type V = NodeModel;

    open spec fn view(&self) -> NodeModel {
        match self {
            TrieNode::Incomplete { node } => NodeModel {
                data: node.data,
                children: ids_of(node.children@),
                word: None,
            },
            TrieNode::Complete { node, word } => NodeModel {
                data: node.data,
                children: ids_of(node.children@),
                word: Some(word@),
            },
        }
    }
}

impl TrieNode {
    /// The shared part of the node, whichever kind it is.
    pub open spec fn shared(&self) -> Node {
        match self {
            TrieNode::Incomplete { node } => *node,
            TrieNode::Complete { node, word: _ } => *node,
        }
    }

    /// Attaches `id` as the last child.
    pub fn add_child(&mut self, id: i32)
        ensures
            final(self)@ == old(self)@.with_child(id as int),
    {
        match self {
            TrieNode::Incomplete { node } => {
                node.children.push(id);
            },
            TrieNode::Complete { node, word: _ } => {
                node.children.push(id);
            },
        }
        assert(ids_of(old(self).shared().children@.push(id)) =~= ids_of(
            old(self).shared().children@,
        ).push(id as int));
    }

    /// The shared part of the node, whichever kind it is.
    pub fn get_node(&self) -> (node: &Node)
        ensures
            *node == self.shared(),
    {
        match self {
            TrieNode::Incomplete { node } => node,
            TrieNode::Complete { node, word: _ } => node,
        }
    }
}

/// Whether `id` occurs in `ids`.
pub fn contains_id(ids: &Vec<i32>, id: i32) -> (found: bool)
    ensures
        found == ids@.contains(id),
{
    let mut i: usize = 0;
    while i < ids.len()
        invariant
            i <= ids.len(),
            forall|k: int| 0 <= k < i ==> ids@[k] != id,
        decreases ids.len() - i,
    {
        if ids[i] == id {
            return true;
        }
        i += 1;
    }
    false
}

/// A prefix trie whose nodes live in a table keyed by identity.
pub struct Trie {
    pub(crate) data: HashMap<i32, TrieNode>,
    pub(crate) current_size: i32,
}

/// The arena that a table of nodes and a size stand for.
pub open spec fn arena_model(table: Map<i32, TrieNode>, size: int) -> TrieModel {
    TrieModel {
        nodes: Map::new(
            |id: int| i32::MIN <= id <= i32::MAX && table.contains_key(id as i32),
            |id: int| table[id as i32]@,
        ),
        size,
    }
}

impl View for Trie {
    type V = TrieModel;

    open(crate) spec fn view(&self) -> TrieModel {
        arena_model(self.data@, self.current_size as int)
    }
}

impl Trie {
    /// A trie that holds no word: the root alone.
    pub fn new() -> (trie: Self)
        ensures
            trie@ == TrieModel::empty(),
            trie@.wf(),
    {
        let mut hash_map: HashMap<i32, TrieNode> = HashMap::new();
        let root = TrieNode::Incomplete { node: Node::new(' ') };
        hash_map.insert(0, root);
        let trie = Self { data: hash_map, current_size: 0 };
        proof {
            assert(trie.data@ == Map::<i32, TrieNode>::empty().insert(0i32, root));
            assert(ids_of(Seq::<i32>::empty()) =~= Seq::<int>::empty());
            assert(root@ == TrieModel::empty().nodes[0]);
            assert(trie@.nodes =~= TrieModel::empty().nodes);
            TrieModel::lemma_empty_wf();
        }
        trie
    }

    /// Inserts `word`. From the root, each character in turn leads to the
    /// child that holds it. From the first character on that has no such
    /// child, every character gets a new node with the next free identity,
    /// and the node of the last character carries `word`. A node that was
    /// there before is left as it is, also where `word` ends at it.
    pub fn add_word(&mut self, word: String)
        requires
            old(self)@.wf(),
            old(self)@.size + old(self)@.missing(word@) <= i32::MAX,
        ensures
            final(self)@ == old(self)@.insert(word@),
            final(self)@.wf(),
    {
        let mut current_node: i32 = 0;  // This is the root node id always
        let length = word.as_str().unicode_len();
        let mut letters = word.as_str().chars();
        let mut index: usize = 0;
        let ghost before = self@;
        proof {
            before.lemma_grown_unchanged(word@, 0);
            before.lemma_walk_len(0, word@);
            assert(word@.skip(0) =~= word@);
        }

        loop
            invariant
                before.wf_arena(),
                index <= length == word@.len(),
                letters.remaining() == word@.skip(index as int),
                self@ == before.grown(word@, index as int),
                current_node as int == before.cursor(word@, index as int),
                before.size + before.missing(word@) <= i32::MAX,
            ensures
                index == length,
            decreases length - index,
        {
            let character = match letters.next() {
                Some(character) => character,
                None => {
                    break ;
                },
            };
            proof {
                assert(character == word@[index as int]);
                assert(word@.skip(index as int).drop_first() =~= word@.skip(index as int + 1));
                before.lemma_grown_wf_arena(word@, index as int);
                before.lemma_cursor_has(word@, index as int);
                before.lemma_grown_next(word@, index as int);
            }
            // If the character is not a child of the current node then add it, otherwise move on to
            // the child and get the next character
            let node_with_character = self.check_for_character(current_node, character);

            if node_with_character == INVALID {
                proof {
                    self@.lemma_child_with(current_node as int, character);
                    before.lemma_grown_step(word@, index as int);
                }
                let new_node = Node::new(character);
                let node_to_add: TrieNode;
                // Add the proper node type based on if the word is complete or not
                if index == length - 1 {
                    node_to_add = TrieNode::Complete { node: new_node, word: word.clone() };
                } else {
                    node_to_add = TrieNode::Incomplete { node: new_node };
                }
                assert(ids_of(new_node.children@) =~= Seq::<int>::empty());
                assert(node_to_add@ == NodeModel::fresh(word@, index as int));

                let ghost nodes_before = self@.nodes;
                let ghost table_before = self.data@;
                assert(nodes_before.contains_key(current_node as int));
                self.current_size += 1;
                let mut parent = self.data.remove(&current_node).unwrap();
                parent.add_child(self.current_size);
                let ghost parent_after = parent;
                self.data.insert(current_node, parent);
                self.data.insert(self.current_size, node_to_add);
                proof {
                    assert(self.data@ =~= table_before.insert(current_node, parent_after).insert(
                        self.current_size,
                        node_to_add,
                    ));
                    assert forall|id: int| nodes_before.contains_key(id) implies #[trigger]
                        self@.nodes.contains_key(id) by {
                        assert(table_before.contains_key(id as i32));
                    }
                    assert(self@.nodes =~= nodes_before.insert(
                        current_node as int,
                        nodes_before[current_node as int].with_child(self.current_size as int),
                    ).insert(self.current_size as int, NodeModel::fresh(word@, index as int)));
                }
                current_node = self.current_size;
            } else {
                proof {
                    self@.lemma_child_with(current_node as int, character);
                    before.lemma_grown_unchanged(word@, index as int);
                    before.lemma_grown_unchanged(word@, index as int + 1);
                }
                current_node = node_with_character;
            }
            index += 1;
        }
        proof {
            before.lemma_insert_wf(word@);
        }
    }

    /// How far the walk along `word` from the root gets: the number of
    /// characters it consumes, and the node it ends at.
    pub fn walk_word(&self, word: &str) -> (end: (usize, i32))
        requires
            self@.wf_arena(),
        ensures
            end.0 == self@.walk(word@).len(),
            end.0 <= word@.len(),
            end.1 == reached(self@.walk(word@)),
    {
        let length = word.unicode_len();
        let mut letters = word.chars();
        let mut current_node: i32 = 0;
        let mut matched: usize = 0;
        proof {
            assert(word@.skip(0) =~= word@);
            self@.lemma_walk_len(0, word@);
            assert(self@.walk(word@).take(0) =~= Seq::<int>::empty());
        }
        loop
            invariant_except_break
                letters.remaining() == word@.skip(matched as int),
                self@.walk(word@) == self@.walk(word@).take(matched as int) + self@.walk_from(
                    current_node as int,
                    letters.remaining(),
                ),
            invariant
                self@.wf_arena(),
                self@.has(current_node as int),
                matched <= self@.walk(word@).len() <= word@.len() == length,
                current_node == reached(self@.walk(word@).take(matched as int)),
            ensures
                matched == self@.walk(word@).len(),
            decreases word@.len() - matched,
        {
            let ghost path = self@.walk(word@);
            let ghost rest = letters.remaining();
            match letters.next() {
                None => {
                    proof {
                        assert(path.take(matched as int) + Seq::<int>::empty() =~= path.take(
                            matched as int,
                        ));
                    }
                    break ;
                },
                Some(letter) => {
                    let node_with_character = self.check_for_character(current_node, letter);
                    proof {
                        self@.lemma_child_with(current_node as int, letter);
                    }
                    if node_with_character == INVALID {
                        proof {
                            assert(path.take(matched as int) + Seq::<int>::empty() =~= path.take(
                                matched as int,
                            ));
                        }
                        break ;
                    }
                    proof {
                        assert(word@.skip(matched as int).drop_first() =~= word@.skip(
                            matched as int + 1,
                        ));
                        let tail = self@.walk_from(node_with_character as int, rest.drop_first());
                        assert(path =~= path.take(matched as int) + (seq![
                            node_with_character as int,
                        ] + tail));
                        assert(path.take(matched as int + 1) =~= path.take(matched as int).push(
                            node_with_character as int,
                        ));
                        assert(path =~= path.take(matched as int + 1) + tail);
                    }
                    current_node = node_with_character;
                    matched += 1;
                },
            }
        }
        proof {
            assert(self@.walk(word@).take(matched as int) =~= self@.walk(word@));
        }
        (matched, current_node)
    }

    /// Whether `word` can be inserted: the nodes it needs get identities, and
    /// the highest identity there is must not be passed.
    pub fn has_room_for(&self, word: &String) -> (fits: bool)
        requires
            self@.wf(),
        ensures
            fits == (self@.size + self@.missing(word@) <= i32::MAX),
    {
        let length = word.as_str().unicode_len();
        let end = self.walk_word(word.as_str());
        length - end.0 <= (i32::MAX - self.current_size) as usize
    }

    /// Inserts `word` where there is room for it, and says whether it did.
    pub fn try_add_word(&mut self, word: String) -> (added: bool)
        requires
            old(self)@.wf(),
        ensures
            added == (old(self)@.size + old(self)@.missing(word@) <= i32::MAX),
            added ==> final(self)@ == old(self)@.insert(word@),
            !added ==> final(self)@ == old(self)@,
            final(self)@.wf(),
    {
        // A word never needs more nodes than it has characters, so the
        // walk along the word is only taken where that bound does not settle it.
        let length = word.as_str().unicode_len();
        proof {
            self@.lemma_walk_len(0, word@);
        }
        if length <= (i32::MAX - self.current_size) as usize || self.has_room_for(&word) {
            self.add_word(word);
            true
        } else {
            false
        }
    }

    /// Whether a search can start from what `memory` has cached: the cache is
    /// no longer than the query, and it ends at a node of this trie.
    pub fn can_resume(&self, memory: &AutoCompleteMemory) -> (yes: bool)
        requires
            self@.wf(),
        ensures
            yes == self@.can_resume(memory@.word, memory@.node_ids),
    {
        let node_ids = memory.get_node_ids();
        let cached = node_ids.len();
        if cached > memory.get_word().as_str().unicode_len() {
            return false;
        }
        if cached == 0 {
            return true;
        }
        let last = node_ids[cached - 1];
        assert(ids_of(node_ids@).last() == last as int);
        0 <= last && last <= self.current_size
    }

    /// The highest identity in use, which is the number of nodes below the root.
    pub fn get_size(&self) -> (size: i32)
        ensures
            size == self@.size,
    {
        self.current_size
    }

    /// The node that `node_id` names.
    pub fn get_trie_node(&self, node_id: i32) -> (node: &TrieNode)
        requires
            self@.nodes.contains_key(node_id as int),
        ensures
            node@ == self@.nodes[node_id as int],
    {
        self.data.get(&node_id).unwrap()
    }

    /// The first child of `current_node` that holds `character`, or `INVALID`
    /// when none does.
    pub fn check_for_character(&self, current_node: i32, character: char) -> (found: i32)
        requires
            self@.wf_arena(),
            self@.has(current_node as int),
        ensures
            match self@.child_with(current_node as int, character) {
                Some(id) => found == id,
                None => found == INVALID,
            },
    {
        let parent_node = self.get_trie_node(current_node);
        let children = parent_node.get_node().get_children();
        let mut i: usize = 0;
        while i < children.len()
            invariant
                i <= children.len(),
                self@.wf_arena(),
                self@.has(current_node as int),
                ids_of(children@) == self@.nodes[current_node as int].children,
                self@.child_with(current_node as int, character) == self@.scan(
                    current_node as int,
                    character,
                    i as int,
                ),
            decreases children.len() - i,
        {
            let node_id = children[i];
            assert(self@.is_child_at(current_node as int, i as int, node_id as int));
            let check_node = self.get_trie_node(node_id);
            if check_node.get_node().data == character {
                return node_id;
            }
            i += 1;
        }
        INVALID
    }

    /// Up to `amount` suggestions for the query of `current_word`, the words
    /// that were inserted first ahead of the others.
    ///
    /// The search walks from the last node that `current_word` has cached, or
    /// from the root, along the characters of the query that the cache does
    /// not cover, and caches each node it passes. Where a character has no
    /// matching child the walk ends, and the rest of the query is left aside.
    /// From the node reached, the words that end at or below it are collected
    /// in depth-first order, the children of a node in the order they were
    /// attached. A negative `amount` sets no limit.
    pub fn get_suggested_words(
        &self,
        current_word: &mut AutoCompleteMemory,
        amount: i32,
    ) -> (suggested_words: Vec<String>)
        requires
            self@.wf(),
            self@.can_resume(old(current_word)@.word, old(current_word)@.node_ids),
        ensures
            final(current_word)@.word == old(current_word)@.word,
            final(current_word)@.node_ids == self@.resumed_path(
                old(current_word)@.word,
                old(current_word)@.node_ids,
            ),
            suggested_words.deep_view() == self@.resumed_search(
                old(current_word)@.word,
                old(current_word)@.node_ids,
                amount as int,
            ),
            amount == 0 ==> suggested_words@.len() == 0,
    {
        let mut suggested_words: Vec<String> = Vec::new();

        let mut current_node: i32 = 0;

        // Resume where an earlier search for a shorter query has stopped.
        let cached = current_word.get_node_ids().len();
        if cached > 0 {
            current_node = current_word.get_node_ids()[cached - 1];
        }
        let word = current_word.get_word();
        let letters_left = word.as_str().substring_char(cached, word.as_str().unicode_len());
        let mut letters = letters_left.chars();
        let ghost cached_ids = current_word@.node_ids;
        let ghost resumed_at = current_node as int;
        let ghost mut consumed: int = 0;
        assert(resumed_at == reached(cached_ids));
        assert(letters_left@.skip(0) =~= letters_left@);

        loop
            invariant_except_break
                0 <= consumed <= letters_left@.len(),
                letters.remaining() == letters_left@.skip(consumed),
                cached_ids + self@.walk_from(resumed_at, letters_left@) == current_word@.node_ids
                    + self@.walk_from(current_node as int, letters.remaining()),
            invariant
                self@.wf_arena(),
                self@.has(current_node as int),
                current_word@.word == word@,
                current_node as int == reached(current_word@.node_ids),
            ensures
                current_word@.node_ids == cached_ids + self@.walk_from(resumed_at, letters_left@),
            decreases letters_left@.len() - consumed,
        {
            let ghost ids_before = current_word@.node_ids;
            let ghost letters_before = letters.remaining();
            match letters.next() {
                None => {
                    break ;
                },
                Some(letter) => {
                    let node_with_character = self.check_for_character(current_node, letter);
                    if node_with_character == INVALID {
                        proof {
                            self@.lemma_child_with(current_node as int, letter);
                        }
                        break ;
                    }
                    proof {
                        self@.lemma_child_with(current_node as int, letter);
                        assert(letters_left@.skip(consumed).drop_first() =~= letters_left@.skip(
                            consumed + 1,
                        ));
                        consumed = consumed + 1;
                    }
                    current_node = node_with_character;
                    current_word.push_node_id(current_node);
                    assert(ids_before + self@.walk_from(reached(ids_before), letters_before)
                        =~= current_word@.node_ids + self@.walk_from(
                        current_node as int,
                        letters.remaining(),
                    ));
                },
            }
        }

        // Depth first search
        let mut visited: Vec<i32> = Vec::new();
        let mut stack: Vec<i32> = Vec::new();
        let ghost top = current_node as int;
        let ghost mut exhausted = false;
        proof {
            self@.lemma_subtree_no_duplicates(top);
            assert(ids_of(visited@) =~= Seq::<int>::empty());
            assert(ids_of(stack@) =~= Seq::<int>::empty());
            assert(self@.subtree(top) =~= ids_of(visited@) + self@.subtree(top) + self@.pending(
                ids_of(stack@),
            ));
            assert(suggested_words.deep_view() =~= self@.words_of(ids_of(visited@)));
        }

        while amount < 0 || suggested_words.len() < amount as usize
            invariant_except_break
                !exhausted,
            invariant
                self@.wf_arena(),
                self@.wf_tree(),
                self@.subtree(top).no_duplicates(),
                !exhausted ==> self@.has(current_node as int),
                !exhausted ==> self@.subtree(top) == ids_of(visited@) + self@.subtree(
                    current_node as int,
                ) + self@.pending(ids_of(stack@)),
                exhausted ==> self@.subtree(top) == ids_of(visited@),
                suggested_words.deep_view() == self@.words_of(ids_of(visited@)),
                amount >= 0 ==> suggested_words.len() <= amount,
                forall|k: int| 0 <= k < stack.len() ==> self@.has(#[trigger] stack@[k] as int),
            ensures
                exhausted || (amount >= 0 && suggested_words.len() >= amount),
            decreases self@.subtree(top).len() - visited.len(),
        {
            let ghost visited_before = ids_of(visited@);
            let ghost stack_before = ids_of(stack@);
            let ghost words_before = suggested_words.deep_view();
            visited.push(current_node);
            proof {
                assert(ids_of(visited@) =~= visited_before.push(current_node as int));
                assert(ids_of(visited@).drop_last() =~= visited_before);
            }

            let ref_node = self.get_trie_node(current_node);

            match ref_node {
                TrieNode::Complete { node: _, word } => {
                    suggested_words.push(word.clone());
                    assert(suggested_words.deep_view() =~= words_before.push(word@));
                },
                _ => {},
            }
            assert(suggested_words.deep_view() =~= self@.words_of(ids_of(visited@)));
            let children = ref_node.get_node().get_children();

            let mut place = children.len();
            proof {
                assert(self@.forest(current_node as int, place as int) =~= Seq::<int>::empty());
                assert(self@.pending(ids_of(stack@)) =~= self@.forest(
                    current_node as int,
                    place as int,
                ) + self@.pending(stack_before));
                assert(self@.subtree(top) =~= ids_of(visited@) + (self@.forest(
                    current_node as int,
                    0,
                ) + self@.pending(stack_before)));
            }
            while place > 0
                invariant
                    place <= children.len(),
                    self@.wf_arena(),
                    self@.wf_tree(),
                    self@.has(current_node as int),
                    ids_of(children@) == self@.nodes[current_node as int].children,
                    self@.subtree(top).no_duplicates(),
                    self@.subtree(top) == ids_of(visited@) + (self@.forest(current_node as int, 0)
                        + self@.pending(stack_before)),
                    self@.pending(ids_of(stack@)) == self@.forest(
                        current_node as int,
                        place as int,
                    ) + self@.pending(stack_before),
                    forall|k: int| 0 <= k < stack.len() ==> self@.has(#[trigger] stack@[k] as int),
                decreases place,
            {
                place -= 1;
                let child = children[place];
                proof {
                    assert(self@.is_child_at(current_node as int, place as int, child as int));
                    self@.lemma_forest_has_child(current_node as int, 0, place as int);
                    let below = self@.forest(current_node as int, 0);
                    let at = choose|at: int| 0 <= at < below.len() && below[at] == child as int;
                    assert((below + self@.pending(stack_before))[at] == child as int);
                    lemma_later_not_earlier(
                        ids_of(visited@),
                        self@.forest(current_node as int, 0) + self@.pending(stack_before),
                        child as int,
                    );
                    if visited@.contains(child) {
                        let k = choose|k: int| 0 <= k < visited@.len() && visited@[k] == child;
                        assert(ids_of(visited@)[k] == child as int);
                    }
                }
                if !contains_id(&visited, child) {
                    let ghost stack_now = ids_of(stack@);
                    stack.push(child);
                    proof {
                        assert(ids_of(stack@) =~= stack_now.push(child as int));
                        assert(ids_of(stack@).drop_last() =~= stack_now);
                        assert(self@.pending(ids_of(stack@)) =~= self@.forest(
                            current_node as int,
                            place as int,
                        ) + self@.pending(stack_before));
                    }
                }
            }

            let ghost stack_full = ids_of(stack@);
            current_node = stack.pop().unwrap_or(INVALID);

            if current_node == INVALID {
                proof {
                    assert(stack_full.len() == 0);
                    assert(self@.subtree(top) =~= ids_of(visited@));
                    exhausted = true;
                }
                break ;
            }
            proof {
                assert(ids_of(stack@) =~= stack_full.drop_last());
                assert(self@.subtree(top) =~= ids_of(visited@) + self@.subtree(current_node as int)
                    + self@.pending(ids_of(stack@)));
            }
        }

        proof {
            let found = self@.words_of(ids_of(visited@));
            if exhausted {
                assert(self@.suggestions_at(top, amount as int) =~= found);
            } else {
                let rest = self@.subtree(current_node as int) + self@.pending(ids_of(stack@));
                assert(self@.subtree(top) =~= ids_of(visited@) + rest);
                self@.lemma_words_of_add(ids_of(visited@), rest);
                assert(self@.suggestions_at(top, amount as int) =~= found);
            }
        }

        suggested_words
    }
}

} // verus!
