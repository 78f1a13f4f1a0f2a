//! Facts about the depth-first order of the arena: no node occurs twice in
//! it, and how it splits into a visited part and the subtrees still to come.

use crate::model::TrieModel;
use vstd::prelude::*;
use vstd::seq_lib::lemma_no_dup_in_concat;

verus! {

/// In a run without repeats, what stands in the later part does not stand in
/// the earlier part.
pub proof fn lemma_later_not_earlier<A>(earlier: Seq<A>, later: Seq<A>, x: A)
    requires
        (earlier + later).no_duplicates(),
        later.contains(x),
    ensures
        !earlier.contains(x),
{
    if earlier.contains(x) {
        let i = choose|i: int| 0 <= i < earlier.len() && earlier[i] == x;
        let j = choose|j: int| 0 <= j < later.len() && later[j] == x;
        assert((earlier + later)[i] == x);
        assert((earlier + later)[earlier.len() + j] == x);
    }
}

impl TrieModel {
    /// The parent of `child`, where it has one.
    pub open spec fn parent_of(self, child: int) -> int {
        choose|p: int| self.is_parent(p, child)
    }

    /// `x` is `top` or lies below it: the chain of parents from `x` leads to `top`.
    pub open spec fn below(self, top: int, x: int) -> bool
        decreases x - top,
    {
        x == top || {
            let p = self.parent_of(x);
            top < x <= self.size && top <= p < x && self.below(top, p)
        }
    }

    /// The subtrees left to visit when `stack` holds their roots, the next one last.
    pub open spec fn pending(self, stack: Seq<int>) -> Seq<int>
        decreases stack.len(),
    {
        if stack.len() == 0 {
            Seq::empty()
        } else {
            self.subtree(stack.last()) + self.pending(stack.drop_last())
        }
    }

    /// The parent of a node is the one node that it hangs below.
    pub proof fn lemma_parent_of(self, p: int, j: int, c: int)
        requires
            self.wf_tree(),
            self.is_child_at(p, j, c),
        ensures
            self.parent_of(c) == p,
    {
        assert(self.is_parent(p, c));
        let q = self.parent_of(c);
        let k = choose|k: int| self.is_child_at(q, k, c);
        assert(self.is_child_at(q, k, c));
    }

    /// What lies below a child lies below its parent.
    proof fn lemma_below_child(self, p: int, j: int, c: int, x: int)
        requires
            self.wf_arena(),
            self.wf_tree(),
            self.is_child_at(p, j, c),
            self.below(c, x),
        ensures
            self.below(p, x),
        decreases x - c,
    {
        self.lemma_parent_of(p, j, c);
        if x == c {
            assert(self.below(p, p));
        } else {
            self.lemma_below_child(p, j, c, self.parent_of(x));
        }
    }

    /// No node lies below two children of one node.
    proof fn lemma_siblings_apart(self, p: int, ja: int, ca: int, jb: int, cb: int, x: int)
        requires
            self.wf_arena(),
            self.wf_tree(),
            self.is_child_at(p, ja, ca),
            self.is_child_at(p, jb, cb),
            ja != jb,
        ensures
            !(self.below(ca, x) && self.below(cb, x)),
        decreases x - ca,
    {
        self.lemma_parent_of(p, ja, ca);
        self.lemma_parent_of(p, jb, cb);
        if self.below(ca, x) && self.below(cb, x) {
            if x == ca {
            } else if x == cb {
            } else {
                self.lemma_siblings_apart(p, ja, ca, jb, cb, self.parent_of(x));
            }
        }
    }

    /// Every node of the depth-first order from `node` is `node` or lies below it.
    pub proof fn lemma_subtree_below(self, node: int, x: int)
        requires
            self.wf_arena(),
            self.wf_tree(),
            self.subtree(node).contains(x),
        ensures
            self.has(node),
            self.below(node, x),
        decreases self.size - node, 1int, 0int,
    {
        if x != node {
            assert(self.forest(node, 0).contains(x));
            let j = self.lemma_forest_below(node, 0, x);
            self.lemma_below_child(node, j, self.nodes[node].children[j], x);
        }
    }

    /// Every node of `forest(parent, from)` lies in the subtree of one of the
    /// children from place `from` on.
    pub proof fn lemma_forest_below(self, parent: int, from: int, x: int) -> (j: int)
        requires
            self.wf_arena(),
            self.wf_tree(),
            self.forest(parent, from).contains(x),
        ensures
            from <= j,
            self.is_child_at(parent, j, self.nodes[parent].children[j]),
            self.subtree(self.nodes[parent].children[j]).contains(x),
            self.below(self.nodes[parent].children[j], x),
        decreases self.size - parent, 0int, self.nodes[parent].children.len() - from,
    {
        let kids = self.nodes[parent].children;
        assert(self.is_child_at(parent, from, kids[from]));
        if self.subtree(kids[from]).contains(x) {
            self.lemma_subtree_below(kids[from], x);
            from
        } else {
            assert(self.forest(parent, from + 1).contains(x));
            self.lemma_forest_below(parent, from + 1, x)
        }
    }

    /// No node occurs twice in the depth-first order from `node`.
    pub proof fn lemma_subtree_no_duplicates(self, node: int)
        requires
            self.wf_arena(),
            self.wf_tree(),
        ensures
            self.subtree(node).no_duplicates(),
        decreases self.size - node, 1int, 0int,
    {
        if self.has(node) {
            self.lemma_forest_no_duplicates(node, 0);
            let rest = self.forest(node, 0);
            assert forall|i: int, j: int| 0 <= i < 1 && 0 <= j < rest.len() implies seq![node][i]
                != rest[j] by {
                assert(rest.contains(rest[j]));
                self.lemma_forest_below(node, 0, rest[j]);
            }
            lemma_no_dup_in_concat(seq![node], rest);
        }
    }

    /// No node occurs twice in the subtrees of the children of `parent` from
    /// place `from` on.
    proof fn lemma_forest_no_duplicates(self, parent: int, from: int)
        requires
            self.wf_arena(),
            self.wf_tree(),
        ensures
            self.forest(parent, from).no_duplicates(),
        decreases self.size - parent, 0int, self.nodes[parent].children.len() - from,
    {
        let kids = self.nodes[parent].children;
        if self.has(parent) && 0 <= from < kids.len() {
            assert(self.is_child_at(parent, from, kids[from]));
            let first = self.subtree(kids[from]);
            let rest = self.forest(parent, from + 1);
            self.lemma_subtree_no_duplicates(kids[from]);
            self.lemma_forest_no_duplicates(parent, from + 1);
            assert forall|i: int, j: int| 0 <= i < first.len() && 0 <= j < rest.len() implies first[i]
                != rest[j] by {
                assert(first.contains(first[i]));
                assert(rest.contains(rest[j]));
                self.lemma_subtree_below(kids[from], first[i]);
                let k = self.lemma_forest_below(parent, from + 1, rest[j]);
                self.lemma_siblings_apart(parent, from, kids[from], k, kids[k], first[i]);
            }
            lemma_no_dup_in_concat(first, rest);
        }
    }

    /// The depth-first order below `parent` passes each of its children.
    pub proof fn lemma_forest_has_child(self, parent: int, from: int, j: int)
        requires
            self.wf_arena(),
            0 <= from <= j,
            self.is_child_at(parent, j, self.nodes[parent].children[j]),
        ensures
            self.forest(parent, from).contains(self.nodes[parent].children[j]),
        decreases j - from,
    {
        let kids = self.nodes[parent].children;
        assert(self.is_child_at(parent, from, kids[from]));
        let first = self.subtree(kids[from]);
        let rest = self.forest(parent, from + 1);
        if from == j {
            assert(first[0] == kids[j]);
            assert((first + rest)[0] == kids[j]);
        } else {
            self.lemma_forest_has_child(parent, from + 1, j);
            let i = choose|i: int| 0 <= i < rest.len() && rest[i] == kids[j];
            assert((first + rest)[first.len() + i] == kids[j]);
        }
    }

    /// The words of two runs of nodes, one after the other.
    pub proof fn lemma_words_of_add(self, a: Seq<int>, b: Seq<int>)
        ensures
            self.words_of(a + b) == self.words_of(a) + self.words_of(b),
        decreases b.len(),
    {
        if b.len() == 0 {
            assert(a + b =~= a);
            assert(self.words_of(a) + self.words_of(b) =~= self.words_of(a));
        } else {
            assert((a + b).drop_last() =~= a + b.drop_last());
            self.lemma_words_of_add(a, b.drop_last());
            assert(self.words_of(a + b) =~= self.words_of(a) + self.words_of(b));
        }
    }
}

} // verus!
