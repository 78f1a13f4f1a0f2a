//! The query memory: the last query of a typing session and the nodes that
//! the search has already walked for it.

use crate::model::ids_of;
use vstd::prelude::*;
use vstd::std_specs::iter::IteratorSpec;

verus! {

/// What a query memory holds: the query and the cached walk.
pub struct MemoryModel {
    pub word: Seq<char>,
    pub node_ids: Seq<int>,
}

impl MemoryModel {
    /// The memory after `query` has been taken as the new query: the cache
    /// stays where `query` begins with the query before, and is dropped
    /// otherwise.
    pub open spec fn updated(self, query: Seq<char>) -> MemoryModel {
        MemoryModel {
            word: query,
            node_ids: if self.word.is_prefix_of(query) {
                self.node_ids
            } else {
                Seq::empty()
            },
        }
    }
}

/// The cursor that a caller keeps between related queries.
pub struct AutoCompleteMemory {
    word: String,
    node_ids: Vec<i32>,
}

impl View for AutoCompleteMemory {
    type V = MemoryModel;

    closed spec fn view(&self) -> MemoryModel {
        MemoryModel { word: self.word@, node_ids: ids_of(self.node_ids@) }
    }
}

impl AutoCompleteMemory {
    /// A memory with the empty query and nothing cached.
    pub fn new() -> (memory: Self)
        ensures
            memory@.word == Seq::<char>::empty(),
            memory@.node_ids == Seq::<int>::empty(),
    {
        let memory = Self { word: String::new(), node_ids: Vec::new() };
        assert(memory@.node_ids =~= Seq::<int>::empty());
        memory
    }

    /// A memory with the query `string` and nothing cached.
    pub fn from_string(string: String) -> (memory: Self)
        ensures
            memory@.word == string@,
            memory@.node_ids == Seq::<int>::empty(),
    {
        let memory = Self { word: string, node_ids: Vec::new() };
        assert(memory@.node_ids =~= Seq::<int>::empty());
        memory
    }

    /// Takes `updated_string` as the new query. The cached walk stays where the
    /// new query begins with the old one, and is dropped otherwise: also where
    /// the new query holds the old one further on, since the cached walk is
    /// then no walk along the new query.
    pub fn update(&mut self, updated_string: String)
        ensures
            final(self)@ == old(self)@.updated(updated_string@),
    {
        if !starts_with(updated_string.as_str(), self.word.as_str()) {
            self.node_ids.clear();
            assert(ids_of(self.node_ids@) =~= Seq::<int>::empty());
        }
        self.word = updated_string;
    }

    /// A copy of the query.
    pub fn get_word(&self) -> (word: String)
        ensures
            word@ == self@.word,
    {
        self.word.clone()
    }

    /// The cached walk.
    pub fn get_node_ids(&self) -> (node_ids: &Vec<i32>)
        ensures
            ids_of(node_ids@) == self@.node_ids,
    {
        &self.node_ids
    }

    /// Appends `node_id` to the cached walk.
    pub fn push_node_id(&mut self, node_id: i32)
        ensures
            final(self)@.word == old(self)@.word,
            final(self)@.node_ids == old(self)@.node_ids.push(node_id as int),
    {
        self.node_ids.push(node_id);
        assert(ids_of(self.node_ids@) =~= ids_of(old(self).node_ids@).push(node_id as int));
    }

    /// Drops the cached walk and keeps the query.
    pub fn reset_node_ids(&mut self)
        ensures
            final(self)@.word == old(self)@.word,
            final(self)@.node_ids == Seq::<int>::empty(),
    {
        self.node_ids.clear();
        assert(ids_of(self.node_ids@) =~= Seq::<int>::empty());
    }

    /// Takes `updated_string` as the new query and drops the cached walk.
    pub fn update_and_reset(&mut self, updated_string: String)
        ensures
            final(self)@.word == updated_string@,
            final(self)@.node_ids == Seq::<int>::empty(),
    {
        self.word = updated_string;
        self.node_ids.clear();
        assert(ids_of(self.node_ids@) =~= Seq::<int>::empty());
    }
}

/// Whether `text` begins with `prefix`.
pub fn starts_with(text: &str, prefix: &str) -> (yes: bool)
    ensures
        yes == prefix@.is_prefix_of(text@),
{
    let mut rest = text.chars();
    let mut wanted = prefix.chars();
    let ghost mut i: int = 0;
    loop
        invariant
            0 <= i <= text@.len(),
            i <= prefix@.len(),
            rest.remaining() == text@.skip(i),
            wanted.remaining() == prefix@.skip(i),
            text@.take(i) == prefix@.take(i),
        decreases prefix@.len() - i,
    {
        match wanted.next() {
            None => {
                assert(prefix@.take(i) =~= prefix@);
                assert(text@.take(i) =~= text@.subrange(0, prefix@.len() as int));
                return true;
            },
            Some(w) => {
                match rest.next() {
                    None => {
                        return false;
                    },
                    Some(t) => {
                        if t != w {
                            assert(prefix@.len() <= text@.len() ==> text@.subrange(
                                0,
                                prefix@.len() as int,
                            )[i] != prefix@[i]);
                            return false;
                        }
                    },
                }
            },
        }
        proof {
            assert(text@.take(i + 1) =~= text@.take(i).push(text@[i]));
            assert(prefix@.take(i + 1) =~= prefix@.take(i).push(prefix@[i]));
            assert(text@.skip(i).drop_first() =~= text@.skip(i + 1));
            assert(prefix@.skip(i).drop_first() =~= prefix@.skip(i + 1));
            i = i + 1;
        }
    }
}

} // verus!
