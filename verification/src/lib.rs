//! An in-memory prefix trie for word autocomplete: given the beginning of a
//! word, it returns words inserted before that begin with it.
//!
//! The nodes of the trie live in a table keyed by integer identity, and the
//! edges are identities. The root has identity 0, and every node made later
//! gets the next free identity, so a child always has a higher identity than
//! its parent. Nothing is ever removed.
//!
//! * [`trie`] holds the trie itself: insertion and the search for suggestions.
//! * [`memory`] holds the query memory, the cursor that a caller keeps while
//!   a query grows letter by letter.
//! * [`csv_reader`] takes one column of a comma-separated table as the list
//!   of words.
//! * [`snapshot`] takes a trie apart and puts one together again from parts
//!   that it inspects first.
//! * [`model`] is the mathematical model that the contracts speak of;
//!   [`traversal`] and [`insertion`] prove what the code needs of it, and
//!   [`laws`] and [`vocabulary`] state what holds of the trie as a whole.
//!
//! Four choices are worth knowing.
//!
//! * A word is a sequence of characters, not of bytes. The node of the last
//!   character of a word ends the word, whatever that character is, and the
//!   query memory caches one node for each character.
//! * An insertion makes nodes and changes none. A word that is inserted after
//!   a longer word that begins with it finds all its nodes in place, and its
//!   last node goes on ending no word. A search will not return that word.
//! * The query memory keeps its cache only for a query that begins with the
//!   query before. That a query holds the one before somewhere in its middle
//!   does not make the cached walk a walk along the new query.
//! * A search that is asked for a negative number of words returns all the
//!   words it finds.

pub mod csv_reader;
pub mod insertion;
pub mod laws;
pub mod memory;
pub mod model;
pub mod snapshot;
pub mod traversal;
pub mod trie;
pub mod vocabulary;

use crate::csv_reader::{column_of, extract_from_csv_text, SourceError};
use crate::model::TrieModel;
use crate::trie::Trie;
use vstd::prelude::*;
use vstd::std_specs::iter::IteratorSpec;

verus! {

/// Why no trie was built from a table.
#[derive(Debug, Clone, Copy, PartialEq, Eq)]
pub enum BuildError {
    /// The table did not yield the column.
    Source(SourceError),
    /// The words need more nodes than there are identities.
    TooManyNodes,
}

/// The trie that holds the words of `contents`, inserted in their order, or
/// nothing where they need more nodes than there are identities.
pub fn create_trie_from_words(contents: Vec<String>) -> (built: Option<Trie>)
    ensures
        match built {
            Some(trie) => trie@ == TrieModel::empty().insert_all(contents.deep_view())
                && trie@.wf(),
            None => TrieModel::empty().insert_all(contents.deep_view()).size > i32::MAX,
        },
{
    let mut trie = Trie::new();
    let ghost words = contents.deep_view();
    let ghost texts = contents@;
    let ghost empty = TrieModel::empty();
    proof {
        TrieModel::lemma_empty_wf();
        empty.lemma_insert_all(words);
        assert(words.take(0) =~= Seq::<Seq<char>>::empty());
    }

    for word in rest: contents.into_iter()
        invariant
            rest.seq() == texts,
            words == contents.deep_view(),
            words.len() == texts.len(),
            forall|i: int| 0 <= i < texts.len() ==> #[trigger] words[i] == texts[i]@,
            empty == TrieModel::empty(),
            trie@.wf(),
            trie@ == empty.insert_all(words.take(rest.index())),
            forall|i: int|
                0 <= i <= words.len() ==> (#[trigger] empty.insert_all(words.take(i))).size
                    <= empty.insert_all(words).size,
    {
        proof {
            assert(words.take(rest.index() + 1).drop_last() =~= words.take(rest.index()));
            assert(words.take(rest.index() + 1).last() == word@);
            trie@.lemma_insert_grows(word@);
        }
        if !trie.try_add_word(word) {
            proof {
                assert(empty.insert_all(words.take(rest.index() + 1)).size > i32::MAX);
            }
            return None;
        }
    }
    proof {
        assert(words.take(texts.len() as int) =~= words);
        assert(trie@.size <= i32::MAX);
    }
    Some(trie)
}

/// The trie that holds the words of the column named `column_name` of the
/// table `csv_text`, inserted in the order of the lines.
pub fn create_trie_from_csv_file_text(csv_text: String, column_name: String) -> (built: Result<
    Trie,
    BuildError,
>)
    ensures
        match column_of(csv_text@, column_name@) {
            Err(error) => built matches Err(e) && e == BuildError::Source(error),
            Ok(words) => if TrieModel::empty().insert_all(words).size <= i32::MAX {
                built matches Ok(trie) && trie@ == TrieModel::empty().insert_all(words)
                    && trie@.wf()
            } else {
                built matches Err(e) && e == BuildError::TooManyNodes
            },
        },
{
    let contents = match extract_from_csv_text(csv_text, column_name) {
        Ok(contents) => contents,
        Err(error) => {
            return Err(BuildError::Source(error));
        },
    };
    match create_trie_from_words(contents) {
        Some(trie) => Ok(trie),
        None => Err(BuildError::TooManyNodes),
    }
}

} // verus!
