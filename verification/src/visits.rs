//! Every node exactly once: a walk that stays within a tree visits each live
//! node of it, and none twice.

use vstd::prelude::*;
use crate::counting::live_among;
use crate::model::TreeView;
use crate::traversal::{
    post_children, post_from, postorder, pre_children, pre_from, preorder, visit_of, Visit,
};

verus! {

/// Whether `x` is the child of `n` at some index from `i` on, or lies below
/// such a child.
pub open spec fn below_child_from(t: TreeView, x: int, n: int, i: int) -> bool {
    exists|j: int|
        i <= j < t.children_of(n).len() && t.in_subtree(x, #[trigger] t.children_of(n)[j])
}

/// Every entry of `w` is a node at or below `n` with its payload, no node
/// occurs twice, and every node at or below `n` occurs.
pub open spec fn visits_subtree_once(w: Seq<Visit>, t: TreeView, n: int) -> bool {
    &&& forall|k: int|
        0 <= k < w.len() ==> t.in_subtree((#[trigger] w[k]).0 as int, n) && w[k] == visit_of(
            t,
            w[k].0 as int,
        )
    &&& forall|k: int, l: int|
        0 <= k < l < w.len() ==> (#[trigger] w[k]).0 != (#[trigger] w[l]).0
    &&& forall|x: int| #[trigger]
        t.in_subtree(x, n) ==> exists|k: int| 0 <= k < w.len() && (#[trigger] w[k]).0 == x
}

/// The same for the children of `n` from index `i` on and what lies below
/// them.
pub open spec fn visits_children_once(w: Seq<Visit>, t: TreeView, n: int, i: int) -> bool {
    &&& forall|k: int|
        0 <= k < w.len() ==> below_child_from(t, (#[trigger] w[k]).0 as int, n, i) && w[k]
            == visit_of(t, w[k].0 as int)
    &&& forall|k: int, l: int|
        0 <= k < l < w.len() ==> (#[trigger] w[k]).0 != (#[trigger] w[l]).0
    &&& forall|x: int| #[trigger]
        below_child_from(t, x, n, i) ==> exists|k: int|
            0 <= k < w.len() && (#[trigger] w[k]).0 == x
}

impl TreeView {
    /// What lies below a child of `n` lies below `n`.
    pub proof fn lemma_below_child_below_node(self, x: int, n: int, j: int)
        requires
            self.wf(),
            self.is_live(n),
            0 <= j < self.children_of(n).len(),
            self.in_subtree(x, self.children_of(n)[j]),
        ensures
            self.in_subtree(x, n),
            n < x,
        decreases x,
    {
        let c = self.children_of(n)[j];
        assert(self.children_belong(n));
        self.lemma_in_subtree_younger(x, c);
        assert(self.in_subtree(n, n));
        if x != c {
            self.lemma_below_child_below_node(self.parent_of(x), n, j);
        }
    }

    /// What lies below `n` and is not `n` lies at or below one of its
    /// children.
    pub proof fn lemma_below_node_below_child(self, x: int, n: int)
        requires
            self.wf(),
            self.in_subtree(x, n),
            x != n,
        ensures
            below_child_from(self, x, n, 0),
        decreases x,
    {
        let parent = self.parent_of(x);
        assert(x != self.root);
        self.lemma_rank(x);
        if parent == n {
            assert(self.in_subtree(x, self.children_of(n)[self.rank_of(x)]));
        } else {
            self.lemma_below_node_below_child(parent, n);
            let j = choose|j: int|
                0 <= j < self.children_of(n).len() && self.in_subtree(
                    parent,
                    #[trigger] self.children_of(n)[j],
                );
            assert(self.in_subtree(x, self.children_of(n)[j]));
        }
    }

    /// Nothing lies below two children of one node.
    pub proof fn lemma_children_apart(self, x: int, n: int, i: int, j: int)
        requires
            self.wf(),
            self.is_live(n),
            0 <= i < self.children_of(n).len(),
            0 <= j < self.children_of(n).len(),
            i != j,
            self.in_subtree(x, self.children_of(n)[i]),
        ensures
            !self.in_subtree(x, self.children_of(n)[j]),
        decreases x,
    {
        let a = self.children_of(n)[i];
        let b = self.children_of(n)[j];
        assert(self.children_belong(n));
        crate::lists::lemma_distinct_at(self.children_of(n), i, j);
        if self.in_subtree(x, b) {
            if x == a {
                self.lemma_in_subtree_younger(n, b);
            } else if x == b {
                self.lemma_in_subtree_younger(n, a);
            } else {
                self.lemma_children_apart(self.parent_of(x), n, i, j);
            }
        }
    }

    /// Every live node is the root or lies below it.
    pub proof fn lemma_live_below_root(self, x: int)
        requires
            self.wf(),
            self.is_live(x),
        ensures
            self.in_subtree(x, self.root),
        decreases x,
    {
        if x != self.root {
            self.lemma_rank(x);
            self.lemma_live_below_root(self.parent_of(x));
        }
    }
}

/// The pre-order walk from a live node, within its tree, visits that node
/// and every node below it exactly once.
pub proof fn lemma_pre_from_visits_once(t: TreeView, n: int)
    requires
        t.wf(),
        t.nodes.len() <= i64::MAX,
        t.is_live(n),
    ensures
        visits_subtree_once(pre_from(Seq::empty(), t, n, false, 0), t, n),
    decreases t.nodes.len() - n, t.children_of(n).len() + 1,
{
    let w = pre_from(Seq::empty(), t, n, false, 0);
    let own = seq![visit_of(t, n)];
    let rest = pre_children(Seq::empty(), t, n, 0, false, 0);
    assert(w =~= own + rest);
    lemma_pre_children_visits_once(t, n, 0);
    assert forall|k: int| 0 <= k < w.len() implies t.in_subtree((#[trigger] w[k]).0 as int, n)
        && w[k] == visit_of(t, w[k].0 as int) by {
        if k > 0 {
            assert(w[k] == rest[k - 1]);
            let x = rest[k - 1].0 as int;
            let j = choose|j: int|
                0 <= j < t.children_of(n).len() && t.in_subtree(
                    x,
                    #[trigger] t.children_of(n)[j],
                );
            t.lemma_below_child_below_node(x, n, j);
        }
    }
    assert forall|k: int, l: int| 0 <= k < l < w.len() implies (#[trigger] w[k]).0 != (
    #[trigger] w[l]).0 by {
        assert(w[l] == rest[l - 1]);
        let y = rest[l - 1].0 as int;
        let j = choose|j: int|
            0 <= j < t.children_of(n).len() && t.in_subtree(y, #[trigger] t.children_of(n)[j]);
        t.lemma_below_child_below_node(y, n, j);
        if k > 0 {
            assert(w[k] == rest[k - 1]);
        }
    }
    assert forall|x: int| #[trigger] t.in_subtree(x, n) implies exists|k: int|
        0 <= k < w.len() && (#[trigger] w[k]).0 == x by {
        if x == n {
            assert(w[0].0 == x);
        } else {
            t.lemma_below_node_below_child(x, n);
            let k = choose|k: int| 0 <= k < rest.len() && (#[trigger] rest[k]).0 == x;
            assert(w[k + 1].0 == x);
        }
    }
}

/// The pre-order walks of the children of a live node from index `i` on
/// visit those children and every node below them exactly once.
pub proof fn lemma_pre_children_visits_once(t: TreeView, n: int, i: int)
    requires
        t.wf(),
        t.nodes.len() <= i64::MAX,
        t.is_live(n),
        0 <= i <= t.children_of(n).len(),
    ensures
        visits_children_once(pre_children(Seq::empty(), t, n, i, false, 0), t, n, i),
    decreases t.nodes.len() - n, t.children_of(n).len() - i,
{
    let w = pre_children(Seq::empty(), t, n, i, false, 0);
    if i < t.children_of(n).len() {
        let c = t.children_of(n)[i];
        assert(t.children_belong(n));
        assert(t.is_live(c));
        let first = pre_from(Seq::empty(), t, c, false, 0);
        let rest = pre_children(Seq::empty(), t, n, i + 1, false, 0);
        assert(w =~= first + rest);
        lemma_pre_from_visits_once(t, c);
        lemma_pre_children_visits_once(t, n, i + 1);
        assert forall|k: int| 0 <= k < w.len() implies below_child_from(
            t,
            (#[trigger] w[k]).0 as int,
            n,
            i,
        ) && w[k] == visit_of(t, w[k].0 as int) by {
            if k < first.len() {
                assert(w[k] == first[k]);
                assert(t.in_subtree(first[k].0 as int, t.children_of(n)[i]));
            } else {
                assert(w[k] == rest[k - first.len()]);
                let x = rest[k - first.len()].0 as int;
                let j = choose|j: int|
                    i + 1 <= j < t.children_of(n).len() && t.in_subtree(
                        x,
                        #[trigger] t.children_of(n)[j],
                    );
                assert(t.in_subtree(x, t.children_of(n)[j]));
            }
        }
        assert forall|k: int, l: int| 0 <= k < l < w.len() implies (#[trigger] w[k]).0 != (
        #[trigger] w[l]).0 by {
            if l < first.len() {
                assert(w[k] == first[k] && w[l] == first[l]);
            } else if k >= first.len() {
                assert(w[k] == rest[k - first.len()] && w[l] == rest[l - first.len()]);
            } else {
                assert(w[k] == first[k] && w[l] == rest[l - first.len()]);
                let x = first[k].0 as int;
                let y = rest[l - first.len()].0 as int;
                let j = choose|j: int|
                    i + 1 <= j < t.children_of(n).len() && t.in_subtree(
                        y,
                        #[trigger] t.children_of(n)[j],
                    );
                t.lemma_children_apart(y, n, j, i);
                t.lemma_in_subtree_younger(x, c);
                t.lemma_in_subtree_younger(y, t.children_of(n)[j]);
            }
        }
        assert forall|x: int| #[trigger] below_child_from(t, x, n, i) implies exists|k: int|
            0 <= k < w.len() && (#[trigger] w[k]).0 == x by {
            let j = choose|j: int|
                i <= j < t.children_of(n).len() && t.in_subtree(x, #[trigger] t.children_of(n)[j]);
            if j == i {
                let k = choose|k: int| 0 <= k < first.len() && (#[trigger] first[k]).0 == x;
                assert(w[k].0 == x);
            } else {
                assert(t.in_subtree(x, t.children_of(n)[j]));
                assert(below_child_from(t, x, n, i + 1));
                let k = choose|k: int| 0 <= k < rest.len() && (#[trigger] rest[k]).0 == x;
                assert(w[k + first.len()].0 == x);
            }
        }
    } else {
        assert(w =~= Seq::empty());
    }
}

/// The post-order walk from a live node, within its tree, visits that node
/// and every node below it exactly once.
pub proof fn lemma_post_from_visits_once(t: TreeView, n: int)
    requires
        t.wf(),
        t.nodes.len() <= i64::MAX,
        t.is_live(n),
    ensures
        visits_subtree_once(post_from(Seq::empty(), t, n, false, 0), t, n),
    decreases t.nodes.len() - n, t.children_of(n).len() + 1,
{
    let w = post_from(Seq::empty(), t, n, false, 0);
    let own = seq![visit_of(t, n)];
    let rest = post_children(Seq::empty(), t, n, 0, false, 0);
    assert(w =~= rest + own);
    lemma_post_children_visits_once(t, n, 0);
    assert forall|k: int| 0 <= k < w.len() implies t.in_subtree((#[trigger] w[k]).0 as int, n)
        && w[k] == visit_of(t, w[k].0 as int) by {
        if k < rest.len() {
            assert(w[k] == rest[k]);
            let x = rest[k].0 as int;
            let j = choose|j: int|
                0 <= j < t.children_of(n).len() && t.in_subtree(
                    x,
                    #[trigger] t.children_of(n)[j],
                );
            t.lemma_below_child_below_node(x, n, j);
        }
    }
    assert forall|k: int, l: int| 0 <= k < l < w.len() implies (#[trigger] w[k]).0 != (
    #[trigger] w[l]).0 by {
        assert(w[k] == rest[k]);
        let y = rest[k].0 as int;
        let j = choose|j: int|
            0 <= j < t.children_of(n).len() && t.in_subtree(y, #[trigger] t.children_of(n)[j]);
        t.lemma_below_child_below_node(y, n, j);
        if l < rest.len() {
            assert(w[l] == rest[l]);
        }
    }
    assert forall|x: int| #[trigger] t.in_subtree(x, n) implies exists|k: int|
        0 <= k < w.len() && (#[trigger] w[k]).0 == x by {
        if x == n {
            assert(w[rest.len() as int].0 == x);
        } else {
            t.lemma_below_node_below_child(x, n);
            let k = choose|k: int| 0 <= k < rest.len() && (#[trigger] rest[k]).0 == x;
            assert(w[k].0 == x);
        }
    }
}

/// The post-order walks of the children of a live node from index `i` on
/// visit those children and every node below them exactly once.
pub proof fn lemma_post_children_visits_once(t: TreeView, n: int, i: int)
    requires
        t.wf(),
        t.nodes.len() <= i64::MAX,
        t.is_live(n),
        0 <= i <= t.children_of(n).len(),
    ensures
        visits_children_once(post_children(Seq::empty(), t, n, i, false, 0), t, n, i),
    decreases t.nodes.len() - n, t.children_of(n).len() - i,
{
    let w = post_children(Seq::empty(), t, n, i, false, 0);
    if i < t.children_of(n).len() {
        let c = t.children_of(n)[i];
        assert(t.children_belong(n));
        assert(t.is_live(c));
        let first = post_from(Seq::empty(), t, c, false, 0);
        let rest = post_children(Seq::empty(), t, n, i + 1, false, 0);
        assert(w =~= first + rest);
        lemma_post_from_visits_once(t, c);
        lemma_post_children_visits_once(t, n, i + 1);
        assert forall|k: int| 0 <= k < w.len() implies below_child_from(
            t,
            (#[trigger] w[k]).0 as int,
            n,
            i,
        ) && w[k] == visit_of(t, w[k].0 as int) by {
            if k < first.len() {
                assert(w[k] == first[k]);
                assert(t.in_subtree(first[k].0 as int, t.children_of(n)[i]));
            } else {
                assert(w[k] == rest[k - first.len()]);
                let x = rest[k - first.len()].0 as int;
                let j = choose|j: int|
                    i + 1 <= j < t.children_of(n).len() && t.in_subtree(
                        x,
                        #[trigger] t.children_of(n)[j],
                    );
                assert(t.in_subtree(x, t.children_of(n)[j]));
            }
        }
        assert forall|k: int, l: int| 0 <= k < l < w.len() implies (#[trigger] w[k]).0 != (
        #[trigger] w[l]).0 by {
            if l < first.len() {
                assert(w[k] == first[k] && w[l] == first[l]);
            } else if k >= first.len() {
                assert(w[k] == rest[k - first.len()] && w[l] == rest[l - first.len()]);
            } else {
                assert(w[k] == first[k] && w[l] == rest[l - first.len()]);
                let x = first[k].0 as int;
                let y = rest[l - first.len()].0 as int;
                let j = choose|j: int|
                    i + 1 <= j < t.children_of(n).len() && t.in_subtree(
                        y,
                        #[trigger] t.children_of(n)[j],
                    );
                t.lemma_children_apart(y, n, j, i);
                t.lemma_in_subtree_younger(x, c);
                t.lemma_in_subtree_younger(y, t.children_of(n)[j]);
            }
        }
        assert forall|x: int| #[trigger] below_child_from(t, x, n, i) implies exists|k: int|
            0 <= k < w.len() && (#[trigger] w[k]).0 == x by {
            let j = choose|j: int|
                i <= j < t.children_of(n).len() && t.in_subtree(x, #[trigger] t.children_of(n)[j]);
            if j == i {
                let k = choose|k: int| 0 <= k < first.len() && (#[trigger] first[k]).0 == x;
                assert(w[k].0 == x);
            } else {
                assert(t.in_subtree(x, t.children_of(n)[j]));
                assert(below_child_from(t, x, n, i + 1));
                let k = choose|k: int| 0 <= k < rest.len() && (#[trigger] rest[k]).0 == x;
                assert(w[k + first.len()].0 == x);
            }
        }
    } else {
        assert(w =~= Seq::empty());
    }
}

/// A walk of a tree alone visits every live node of it exactly once, in
/// pre-order as in post-order: each entry is a live node with its payload, no
/// node occurs twice, and every live node occurs.
pub proof fn lemma_walk_visits_each_node_once(t: TreeView)
    requires
        t.wf(),
        t.nodes.len() <= i64::MAX,
    ensures
        visits_subtree_once(preorder(Seq::empty(), t, false), t, t.root),
        visits_subtree_once(postorder(Seq::empty(), t, false), t, t.root),
        forall|x: int| t.is_live(x) ==> #[trigger] t.in_subtree(x, t.root),
{
    assert forall|x: int| t.is_live(x) implies #[trigger] t.in_subtree(x, t.root) by {
        t.lemma_live_below_root(x);
    }
    if t.root != 0 {
        lemma_pre_from_visits_once(t, t.root);
        lemma_post_from_visits_once(t, t.root);
    }
}

/// The number of entries among the first `len` of `w` that stand at `x`.
pub open spec fn entries_at(w: Seq<Visit>, x: int, len: nat) -> nat
    decreases len,
{
    if len == 0 {
        0
    } else {
        entries_at(w, x, (len - 1) as nat) + if w[len - 1].0 == x {
            1nat
        } else {
            0nat
        }
    }
}

/// The number of entries among the first `len` of `w` that stand before
/// `upto`.
pub open spec fn entries_before(w: Seq<Visit>, upto: int, len: nat) -> nat
    decreases len,
{
    if len == 0 {
        0
    } else {
        entries_before(w, upto, (len - 1) as nat) + if w[len - 1].0 < upto {
            1nat
        } else {
            0nat
        }
    }
}

/// One position more adds the entries that stand there.
proof fn lemma_entries_before_step(w: Seq<Visit>, upto: int, len: nat)
    ensures
        entries_before(w, upto + 1, len) == entries_before(w, upto, len) + entries_at(
            w,
            upto,
            len,
        ),
    decreases len,
{
    if len > 0 {
        lemma_entries_before_step(w, upto, (len - 1) as nat);
    }
}

/// Where no node occurs twice, a node that occurs has one entry, and a node
/// that does not occur has none.
proof fn lemma_entries_at_once(w: Seq<Visit>, x: int, len: nat)
    requires
        len <= w.len(),
        forall|k: int, l: int|
            0 <= k < l < w.len() ==> (#[trigger] w[k]).0 != (#[trigger] w[l]).0,
    ensures
        (forall|k: int| 0 <= k < len ==> (#[trigger] w[k]).0 != x) ==> entries_at(w, x, len)
            == 0,
        (exists|k: int| 0 <= k < len && (#[trigger] w[k]).0 == x) ==> entries_at(w, x, len)
            == 1,
    decreases len,
{
    if len > 0 {
        lemma_entries_at_once(w, x, (len - 1) as nat);
        if w[len - 1].0 == x {
            assert forall|k: int| 0 <= k < len - 1 implies (#[trigger] w[k]).0 != x by {
                assert(w[k].0 != w[len - 1].0);
            }
        } else if exists|k: int| 0 <= k < len && (#[trigger] w[k]).0 == x {
            let k = choose|k: int| 0 <= k < len && (#[trigger] w[k]).0 == x;
            assert(0 <= k < len - 1 && w[k].0 == x);
        }
    }
}

/// Entries that all stand before `upto` are all counted.
proof fn lemma_entries_before_all(w: Seq<Visit>, upto: int, len: nat)
    requires
        len <= w.len(),
        forall|k: int| 0 <= k < w.len() ==> (#[trigger] w[k]).0 < upto,
    ensures
        entries_before(w, upto, len) == len,
    decreases len,
{
    if len > 0 {
        lemma_entries_before_all(w, upto, (len - 1) as nat);
        assert(w[len - 1].0 < upto);
    }
}

/// Entries none of which stands before `upto` are not counted.
proof fn lemma_entries_before_none(w: Seq<Visit>, upto: int, len: nat)
    requires
        len <= w.len(),
        forall|k: int| 0 <= k < w.len() ==> (#[trigger] w[k]).0 >= upto,
    ensures
        entries_before(w, upto, len) == 0,
    decreases len,
{
    if len > 0 {
        lemma_entries_before_none(w, upto, (len - 1) as nat);
        assert(w[len - 1].0 >= upto);
    }
}

/// A walk that visits every live node once has as many entries before a
/// position as there are live nodes before it.
proof fn lemma_entries_match_nodes(w: Seq<Visit>, t: TreeView, upto: nat)
    requires
        t.wf(),
        t.nodes.len() <= i64::MAX,
        visits_subtree_once(w, t, t.root),
        forall|x: int| t.is_live(x) ==> #[trigger] t.in_subtree(x, t.root),
        upto <= t.nodes.len(),
    ensures
        entries_before(w, upto as int, w.len()) == live_among(t.nodes, upto),
    decreases upto,
{
    assert forall|k: int| 0 <= k < w.len() implies t.is_live((#[trigger] w[k]).0 as int) by {
        t.lemma_in_subtree_younger(w[k].0 as int, t.root);
    }
    if upto == 0 {
        lemma_entries_before_none(w, 0, w.len());
    } else {
        let x = upto - 1;
        lemma_entries_match_nodes(w, t, x as nat);
        lemma_entries_before_step(w, x, w.len());
        lemma_entries_at_once(w, x, w.len());
        if t.is_live(x) {
            assert(t.in_subtree(x, t.root));
        } else {
            assert forall|k: int| 0 <= k < w.len() implies (#[trigger] w[k]).0 != x by {
                assert(t.is_live(w[k].0 as int));
            }
        }
    }
}

/// A walk of a tree alone has as many entries as the tree has live nodes.
pub proof fn lemma_walk_length(t: TreeView)
    requires
        t.wf(),
        t.nodes.len() <= i64::MAX,
    ensures
        preorder(Seq::empty(), t, false).len() == t.live_count(),
        postorder(Seq::empty(), t, false).len() == t.live_count(),
{
    let pre = preorder(Seq::empty(), t, false);
    let post = postorder(Seq::empty(), t, false);
    lemma_walk_visits_each_node_once(t);
    lemma_entries_match_nodes(pre, t, t.nodes.len());
    lemma_entries_match_nodes(post, t, t.nodes.len());
    assert forall|k: int| 0 <= k < pre.len() implies (#[trigger] pre[k]).0 < t.nodes.len() by {
        t.lemma_in_subtree_younger(pre[k].0 as int, t.root);
    }
    assert forall|k: int| 0 <= k < post.len() implies (#[trigger] post[k]).0 < t.nodes.len() by {
        t.lemma_in_subtree_younger(post[k].0 as int, t.root);
    }
    lemma_entries_before_all(pre, t.nodes.len() as int, pre.len());
    lemma_entries_before_all(post, t.nodes.len() as int, post.len());
}

} // verus!
