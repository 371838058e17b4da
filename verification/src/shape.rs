//! The shape of a tree survives every operation on it.

use vstd::prelude::*;
use crate::lists::{
    lemma_distinct_at, lemma_distinct_empty, lemma_distinct_index, lemma_distinct_insert,
    lemma_distinct_remove,
};
use crate::model::TreeView;

verus! {

impl TreeView {
    /// Creating the root of a tree that has none keeps the shape.
    pub proof fn lemma_with_root_wf(self, data: i32)
        requires
            self.wf(),
            self.root == 0,
        ensures
            self.with_root(data).wf(),
    {
        let t = self.with_root(data);
        lemma_distinct_empty();
        assert forall|p: int| #[trigger] t.is_live(p) implies t.children_belong(p) by {
            assert(p == 1);
        }
    }

    /// A live node other than the root stands in its parent's child list at
    /// its rank.
    pub proof fn lemma_rank(self, p: int)
        requires
            self.wf(),
            self.is_live(p),
            p != self.root,
        ensures
            0 <= self.rank_of(p) < self.children_of(self.parent_of(p)).len(),
            self.children_of(self.parent_of(p))[self.rank_of(p)] == p,
            self.is_live(self.parent_of(p)),
            0 < self.parent_of(p) < p,
    {
        assert(self.hangs_under_parent(p));
    }

    /// The rank of the child that a live node lists at index `i` is `i`.
    pub proof fn lemma_rank_of_child(self, p: int, i: int)
        requires
            self.wf(),
            self.is_live(p),
            0 <= i < self.children_of(p).len(),
        ensures
            self.is_live(self.children_of(p)[i]),
            self.children_of(p)[i] != self.root,
            self.parent_of(self.children_of(p)[i]) == p,
            self.rank_of(self.children_of(p)[i]) == i,
    {
        assert(self.children_belong(p));
        lemma_distinct_index(self.children_of(p), i);
    }

    /// Appending a child under a live node keeps the shape.
    pub proof fn lemma_with_child_wf(self, parent: int, data: i32)
        requires
            self.wf(),
            self.is_live(parent),
        ensures
            self.with_child(parent, data).wf(),
    {
        let t = self.with_child(parent, data);
        let q = self.next_pos();
        let k = self.children_of(parent);
        assert(self.children_belong(parent));
        assert(!k.contains(q)) by {
            if k.contains(q) {
                let i = k.index_of(q);
                assert(self.is_live(k[i]));
            }
        }
        lemma_distinct_insert(k, k.len() as int, q);
        assert(k.insert(k.len() as int, q) =~= k.push(q));
        assert(t =~= self.with_sibling_at(parent, k.len() as int, data));
        self.lemma_with_sibling_at_wf(parent, k.len() as int, data);
    }

    /// Putting a new node anywhere into the child list of a live node keeps
    /// the shape.
    pub proof fn lemma_with_sibling_at_wf(self, parent: int, at: int, data: i32)
        requires
            self.wf(),
            self.is_live(parent),
            0 <= at <= self.children_of(parent).len(),
        ensures
            self.with_sibling_at(parent, at, data).wf(),
    {
        let t = self.with_sibling_at(parent, at, data);
        let q = self.next_pos();
        let k = self.children_of(parent);
        let k2 = k.insert(at, q);
        assert(self.children_belong(parent));
        assert(!k.contains(q)) by {
            if k.contains(q) {
                let i = k.index_of(q);
                assert(self.is_live(k[i]));
            }
        }
        lemma_distinct_insert(k, at, q);
        assert(t.children_of(parent) == k2);
        assert forall|p: int| #[trigger] t.is_live(p) && p != t.root implies t.hangs_under_parent(
            p,
        ) by {
            if p != q {
                assert(self.is_live(p));
                assert(self.hangs_under_parent(p));
                let pp = self.parent_of(p);
                if pp != parent {
                    assert(t.children_of(pp) == self.children_of(pp));
                }
            }
        }
        assert forall|p: int| #[trigger] t.is_live(p) implies t.children_belong(p) by {
            if p == q {
                lemma_distinct_empty();
            } else {
                assert(self.is_live(p));
                assert(self.children_belong(p));
                let c = t.children_of(p);
                assert forall|i: int| 0 <= i < c.len() implies {
                    &&& p < #[trigger] c[i] < t.nodes.len()
                    &&& t.nodes[c[i]].live
                    &&& t.parent_of(c[i]) == p
                } by {
                    if p == parent {
                        if i != at {
                            let a = if i < at { i } else { i - 1 };
                            assert(c[i] == k[a]);
                        }
                    } else {
                        assert(c[i] == self.children_of(p)[i]);
                    }
                }
            }
        }
    }

    /// Putting a new node behind a live node other than the root keeps the
    /// shape.
    pub proof fn lemma_with_sibling_after_wf(self, sibling: int, data: i32)
        requires
            self.wf(),
            self.is_live(sibling),
            sibling != self.root,
        ensures
            self.with_sibling_after(sibling, data).wf(),
    {
        self.lemma_rank(sibling);
        self.lemma_with_sibling_at_wf(self.parent_of(sibling), self.rank_of(sibling) + 1, data);
    }

    /// Recording an embedding at a live node keeps the shape.
    pub proof fn lemma_with_ref_wf(self, p: int, target: i64)
        requires
            self.wf(),
            self.is_live(p),
        ensures
            self.with_ref(p, target).wf(),
    {
        let t = self.with_ref(p, target);
        assert forall|x: int| #[trigger] t.is_live(x) && x != t.root implies t.hangs_under_parent(
            x,
        ) by {
            assert(self.is_live(x));
            assert(self.hangs_under_parent(x));
        }
        assert forall|x: int| #[trigger] t.is_live(x) implies t.children_belong(x) by {
            assert(self.is_live(x));
            assert(self.children_belong(x));
        }
    }

    /// Deleting a childless node other than the root keeps the shape.
    pub proof fn lemma_without_leaf_wf(self, p: int)
        requires
            self.wf(),
            self.is_live(p),
            p != self.root,
            self.children_of(p).len() == 0,
        ensures
            self.without_leaf(p).wf(),
    {
        let t = self.without_leaf(p);
        let parent = self.parent_of(p);
        let r = self.rank_of(p);
        let k = self.children_of(parent);
        let k2 = k.remove(r);
        self.lemma_rank(p);
        assert(self.children_belong(parent));
        lemma_distinct_remove(k, r);
        assert(t.children_of(parent) == k2);
        assert forall|x: int| #[trigger] t.is_live(x) && x != t.root implies t.hangs_under_parent(
            x,
        ) by {
            assert(self.is_live(x));
            assert(self.hangs_under_parent(x));
            let pp = self.parent_of(x);
            assert(pp != p) by {
                if pp == p {
                    assert(self.children_of(p).contains(x));
                }
            }
            if pp != parent {
                assert(t.children_of(pp) == self.children_of(pp));
            }
        }
        assert forall|x: int| #[trigger] t.is_live(x) implies t.children_belong(x) by {
            assert(self.is_live(x));
            assert(self.children_belong(x));
            let c = t.children_of(x);
            assert forall|i: int| 0 <= i < c.len() implies {
                &&& x < #[trigger] c[i] < t.nodes.len()
                &&& t.nodes[c[i]].live
                &&& t.parent_of(c[i]) == x
            } by {
                if x == parent {
                    let a = if i < r { i } else { i + 1 };
                    assert(c[i] == k[a]);
                    lemma_distinct_at(k, a, r);
                } else {
                    assert(c[i] == self.children_of(x)[i]);
                    assert(c[i] != p);
                }
            }
        }
    }
}

} // verus!
