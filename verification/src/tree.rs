//! One rooted hierarchy over an arena of its own.
//!
//! Positions are handed out from 1 upwards and never a second time. A child
//! is therefore always younger than its parent, that is, has the greater
//! position, and a position whose node was deleted stays invalid for good.
//!
//! A tree has one root from the first `add_root` on: a second `add_root`
//! changes nothing and returns the root that is there, and no deletion takes
//! the root away.
//!
//! A tree by itself records which trees its nodes embed and reports what a
//! deletion gives up. Counting those references is the part of the forest.

use vstd::prelude::*;
use crate::arena::{Arena, Node, NULL_POS};
use crate::counting::{lemma_occurrences_push, occurrences, ref_weight, refs_among};
use crate::cursor::{PostOrderIterator, PreOrderIterator};
use crate::error::TreeError;
use crate::lists::{lemma_distinct_at, lemma_distinct_insert, lemma_distinct_remove};
use crate::model::{NodeView, TreeView};
use crate::traversal::{postorder, preorder};

verus! {

/// A tree. It owns its arena; the positions it hands out mean nothing to any
/// other tree. A value of this type stands by itself: the trees of a forest
/// are reached through handles.
pub struct Tree {
    arena: Arena,
    root: i64,
    /// The child list of every position, which the sibling links spell out.
    kids: Ghost<Seq<Seq<int>>>,
}

/// What a record and the child list kept for it stand for.
spec fn node_view(n: Node, kids: Seq<int>) -> NodeView {
    if n.live {
        NodeView {
            live: true,
            data: n.data,
            parent: n.parent as int,
            children: kids,
            subtree_ref: n.subtree_ref,
        }
    } else {
        NodeView::vacant()
    }
}

impl View for Tree {
    type V = TreeView;

    closed spec fn view(&self) -> TreeView {
        TreeView {
            nodes: Seq::new(
                self.arena@.len(),
                |p: int| node_view(self.arena@[p], self.kids@[p]),
            ),
            root: self.root as int,
        }
    }
}

impl Tree {
    /// The links around the children of `p` spell out its child list.
    closed spec fn links_agree(&self, p: int) -> bool {
        let n = self.arena@[p];
        let k = self.kids@[p];
        &&& k.len() == 0 ==> n.first_child == 0 && n.last_child == 0
        &&& k.len() > 0 ==> {
            &&& n.first_child == k[0]
            &&& n.last_child == k[k.len() - 1]
            &&& self.arena@[k[0]].prev_sibling == 0
            &&& self.arena@[k[k.len() - 1]].next_sibling == 0
        }
        &&& forall|i: int, j: int|
            0 <= i && j == i + 1 && j < k.len() ==> {
                &&& self.arena@[#[trigger] k[i]].next_sibling == #[trigger] k[j]
                &&& self.arena@[k[j]].prev_sibling == k[i]
            }
    }

    /// The records of the arena agree with the child lists.
    pub closed spec fn links_wf(&self) -> bool {
        &&& self.arena.wf()
        &&& self.kids@.len() == self.arena@.len()
        &&& self.root != 0 ==> self.arena@[self.root as int].next_sibling == 0
            && self.arena@[self.root as int].prev_sibling == 0
        &&& forall|p: int| #[trigger] self.arena.is_live(p) ==> self.links_agree(p)
    }

    /// The invariant of a tree: its view has the shape of a tree, and the
    /// arena represents that view.
    pub open spec fn wf(&self) -> bool {
        &&& self@.wf()
        &&& self@.nodes.len() <= i64::MAX
        &&& self.links_wf()
    }

    /// A tree with no nodes, which belongs to no forest.
    pub fn new_no_ref() -> (tree: Tree)
        ensures
            tree.wf(),
            tree@ == TreeView::empty(),
    {
        let ghost kids: Seq<Seq<int>> = Seq::empty().push(Seq::empty());
        let tree = Tree { arena: Arena::new(), root: NULL_POS, kids: Ghost(kids) };
        assert(tree@.nodes =~= TreeView::empty().nodes);
        tree
    }

    /// The number of positions handed out so far.
    pub fn allocated(&self) -> (n: usize)
        requires
            self.wf(),
        ensures
            n == self@.nodes.len() - 1,
    {
        self.arena.len() - 1
    }

    /// The position of the root, or the null position while there is none.
    pub fn get_root(&self) -> (pos: i64)
        requires
            self.wf(),
        ensures
            pos == self@.root,
    {
        self.root
    }

    /// Whether `pos` addresses a node of this tree that exists now.
    pub fn contains(&self, pos: i64) -> (b: bool)
        requires
            self.wf(),
        ensures
            b == self@.is_live(pos as int),
    {
        self.arena.contains(pos)
    }

    /// The payload of the node at `pos`.
    pub fn get_data(&self, pos: i64) -> (r: Result<i32, TreeError>)
        requires
            self.wf(),
        ensures
            r == if self@.is_live(pos as int) {
                Ok::<i32, TreeError>(self@.nodes[pos as int].data)
            } else {
                Err::<i32, TreeError>(TreeError::InvalidPosition)
            },
    {
        self.arena.get(pos)
    }

    /// The tree that the node at `pos` embeds, if any.
    pub fn get_subtree_ref(&self, pos: i64) -> (r: Result<Option<i64>, TreeError>)
        requires
            self.wf(),
        ensures
            r == if self@.is_live(pos as int) {
                Ok::<Option<i64>, TreeError>(self@.nodes[pos as int].subtree_ref)
            } else {
                Err::<Option<i64>, TreeError>(TreeError::InvalidPosition)
            },
    {
        if self.arena.contains(pos) {
            Ok(self.arena.node(pos).subtree_ref)
        } else {
            Err(TreeError::InvalidPosition)
        }
    }

    /// The parent of the node at `pos`, the null position for the root.
    pub fn get_parent(&self, pos: i64) -> (r: Result<i64, TreeError>)
        requires
            self.wf(),
        ensures
            r == if self@.is_live(pos as int) {
                Ok::<i64, TreeError>(self@.parent_of(pos as int) as i64)
            } else {
                Err::<i64, TreeError>(TreeError::InvalidPosition)
            },
    {
        if self.arena.contains(pos) {
            Ok(self.arena.node(pos).parent)
        } else {
            Err(TreeError::InvalidPosition)
        }
    }

    /// The first child of the node at `pos`, the null position if it has none.
    pub fn get_first_child(&self, pos: i64) -> (r: Result<i64, TreeError>)
        requires
            self.wf(),
        ensures
            r == if self@.is_live(pos as int) {
                Ok::<i64, TreeError>(self@.first_child_of(pos as int) as i64)
            } else {
                Err::<i64, TreeError>(TreeError::InvalidPosition)
            },
    {
        if self.arena.contains(pos) {
            Ok(self.arena.node(pos).first_child)
        } else {
            Err(TreeError::InvalidPosition)
        }
    }

    /// The last child of the node at `pos`, the null position if it has none.
    pub fn get_last_child(&self, pos: i64) -> (r: Result<i64, TreeError>)
        requires
            self.wf(),
        ensures
            r == if self@.is_live(pos as int) {
                Ok::<i64, TreeError>(self@.last_child_of(pos as int) as i64)
            } else {
                Err::<i64, TreeError>(TreeError::InvalidPosition)
            },
    {
        if self.arena.contains(pos) {
            Ok(self.arena.node(pos).last_child)
        } else {
            Err(TreeError::InvalidPosition)
        }
    }

    /// The sibling after the node at `pos`, the null position if it is the
    /// last child or the root.
    pub fn get_sibling_next(&self, pos: i64) -> (r: Result<i64, TreeError>)
        requires
            self.wf(),
        ensures
            r == if self@.is_live(pos as int) {
                Ok::<i64, TreeError>(self@.next_sibling_of(pos as int) as i64)
            } else {
                Err::<i64, TreeError>(TreeError::InvalidPosition)
            },
    {
        if self.arena.contains(pos) {
            proof {
                self.lemma_sibling_links(pos as int);
            }
            Ok(self.arena.node(pos).next_sibling)
        } else {
            Err(TreeError::InvalidPosition)
        }
    }

    /// The sibling before the node at `pos`, the null position if it is the
    /// first child or the root.
    pub fn get_sibling_prev(&self, pos: i64) -> (r: Result<i64, TreeError>)
        requires
            self.wf(),
        ensures
            r == if self@.is_live(pos as int) {
                Ok::<i64, TreeError>(self@.prev_sibling_of(pos as int) as i64)
            } else {
                Err::<i64, TreeError>(TreeError::InvalidPosition)
            },
    {
        if self.arena.contains(pos) {
            proof {
                self.lemma_sibling_links(pos as int);
            }
            Ok(self.arena.node(pos).prev_sibling)
        } else {
            Err(TreeError::InvalidPosition)
        }
    }

    /// The links of a live node are what the view says of its neighbours.
    proof fn lemma_sibling_links(&self, p: int)
        requires
            self.wf(),
            self@.is_live(p),
        ensures
            self.arena.is_live(p),
            self.arena@[p].next_sibling == self@.next_sibling_of(p),
            self.arena@[p].prev_sibling == self@.prev_sibling_of(p),
            self.arena@[p].parent == self@.parent_of(p),
            self.kids@[p] == self@.children_of(p),
            self.arena@[p].first_child == self@.first_child_of(p),
            self.arena@[p].last_child == self@.last_child_of(p),
    {
        assert(self.arena.is_live(p));
        assert(self.links_agree(p));
        if p != self.root {
            self@.lemma_rank(p);
            let pp = self@.parent_of(p);
            assert(self.arena.is_live(pp));
            assert(self.links_agree(pp));
            let k = self.kids@[pp];
            assert(k == self@.children_of(pp));
            let r = self@.rank_of(p);
            assert(k[r] == p);
            if r + 1 < k.len() {
                assert(self.arena@[k[r]].next_sibling == k[r + 1]);
            }
            if r > 0 {
                assert(self.arena@[k[r]].prev_sibling == k[r - 1]);
            }
        }
    }

    /// The record of the live node at `pos`, whose links are what the view
    /// says of its neighbours.
    pub(crate) fn record(&self, pos: i64) -> (n: Node)
        requires
            self.wf(),
            self@.is_live(pos as int),
        ensures
            n.live,
            n.data == self@.nodes[pos as int].data,
            n.subtree_ref == self@.nodes[pos as int].subtree_ref,
            n.parent == self@.parent_of(pos as int),
            n.first_child == self@.first_child_of(pos as int),
            n.last_child == self@.last_child_of(pos as int),
            n.next_sibling == self@.next_sibling_of(pos as int),
            n.prev_sibling == self@.prev_sibling_of(pos as int),
    {
        proof {
            self.lemma_sibling_links(pos as int);
        }
        self.arena.node(pos)
    }

    /// Establishes the root. A tree has one root for good: where it already
    /// has one, nothing changes and the existing root is returned.
    pub fn add_root(&mut self, data: i32) -> (pos: i64)
        requires
            old(self).wf(),
        ensures
            final(self).wf(),
            old(self)@.root != 0 ==> pos == old(self)@.root && final(self)@ == old(self)@,
            old(self)@.root == 0 ==> pos == 1 && final(self)@ == old(self)@.with_root(data),
    {
        if self.root != NULL_POS {
            return self.root;
        }
        let pos = self.arena.allocate(data);
        self.root = pos;
        proof {
            self.kids@ = self.kids@.push(Seq::empty());
            assert(self@.nodes =~= old(self)@.with_root(data).nodes);
            old(self)@.lemma_with_root_wf(data);
            assert forall|p: int| #[trigger] self.arena.is_live(p) implies self.links_agree(p) by {
                assert(p == 1);
            }
        }
        pos
    }


    /// The record that slot `x` holds once a new node with payload `data` is
    /// linked in behind `s`.
    closed spec fn record_after_insert(&self, s: int, data: i32, x: int) -> Node {
        let q = self.arena@.len() as int;
        let sib = self.arena@[s];
        if x == q {
            Node {
                parent: sib.parent,
                prev_sibling: s as i64,
                next_sibling: sib.next_sibling,
                ..Node::fresh(data)
            }
        } else if x == s {
            Node { next_sibling: q as i64, ..sib }
        } else if x != 0 && x == sib.next_sibling {
            Node { prev_sibling: q as i64, ..self.arena@[x] }
        } else if x == sib.parent && sib.next_sibling == 0 {
            Node { last_child: q as i64, ..self.arena@[x] }
        } else {
            self.arena@[x]
        }
    }

    /// Linking a new node in behind `s` gives the tree that the view
    /// describes, with links that agree.
    proof fn lemma_inserted(&self, after: &Tree, s: int, data: i32)
        requires
            self.wf(),
            self@.is_live(s),
            s != self.root,
            self.arena@.len() < i64::MAX,
            after.root == self.root,
            after.arena@.len() == self.arena@.len() + 1,
            forall|x: int|
                0 <= x < after.arena@.len() ==> #[trigger] after.arena@[x]
                    == self.record_after_insert(s, data, x),
            after.kids@ == self.kids@.push(Seq::empty()).update(
                self@.parent_of(s),
                self@.children_of(self@.parent_of(s)).insert(
                    self@.rank_of(s) + 1,
                    self.arena@.len() as int,
                ),
            ),
        ensures
            after.links_wf(),
            after@ == self@.with_sibling_after(s, data),
    {
        let v0 = self@;
        let q = self.arena@.len() as int;
        let par = v0.parent_of(s);
        let r = v0.rank_of(s);
        let k = v0.children_of(par);
        let k2 = k.insert(r + 1, q);
        let nxt = self.arena@[s].next_sibling as int;
        self.lemma_sibling_links(s);
        v0.lemma_rank(s);
        self.lemma_sibling_links(par);
        assert(v0.children_belong(par));
        assert(!k.contains(q)) by {
            if k.contains(q) {
                let i = k.index_of(q);
                assert(k[i] < v0.nodes.len());
            }
        }
        lemma_distinct_insert(k, r + 1, q);
        assert(nxt == (if r + 1 < k.len() { k[r + 1] } else { 0 }));
        assert(after@.nodes =~= v0.with_sibling_after(s, data).nodes);
        assert(after.arena@[0] == Node::vacant());
        assert forall|p: int| #[trigger] after.arena.is_live(p) implies after.links_agree(p) by {
            if p == q {
            } else if p == par {
                assert(self.links_agree(par));
                assert(after.kids@[p] == k2);
                assert forall|i: int| 0 <= i < k.len() implies par < #[trigger] k[i] < q by {}
                assert forall|i: int, j: int| 0 <= i && j == i + 1 && j < k2.len() implies {
                    &&& after.arena@[#[trigger] k2[i]].next_sibling == #[trigger] k2[j]
                    &&& after.arena@[k2[j]].prev_sibling == k2[i]
                } by {
                    if j <= r {
                        assert(k2[i] == k[i] && k2[j] == k[j]);
                        lemma_distinct_at(k, i, r);
                        if j < r {
                            lemma_distinct_at(k, j, r);
                        }
                        if r + 1 < k.len() {
                            lemma_distinct_at(k, i, r + 1);
                            lemma_distinct_at(k, j, r + 1);
                        }
                        assert(self.arena@[k[i]].next_sibling == k[j]);
                    } else if i == r {
                        assert(k2[i] == k[r]);
                    } else if i == r + 1 {
                        assert(k2[j] == k[r + 1]);
                        lemma_distinct_at(k, r + 1, r);
                    } else {
                        assert(k2[i] == k[i - 1] && k2[j] == k[j - 1]);
                        lemma_distinct_at(k, i - 1, r);
                        lemma_distinct_at(k, j - 1, r);
                        lemma_distinct_at(k, j - 1, r + 1);
                        assert(self.arena@[k[i - 1]].next_sibling == k[j - 1]);
                    }
                }
                assert(k2[0] == k[0]);
                if r + 1 < k.len() {
                    assert(k2[k2.len() - 1] == k[k.len() - 1]);
                    lemma_distinct_at(k, k.len() - 1, r);
                } else {
                    assert(k2[k2.len() - 1] == q);
                }
                if r > 0 {
                    lemma_distinct_at(k, 0, r);
                    if r + 1 < k.len() {
                        lemma_distinct_at(k, 0, r + 1);
                    }
                }
            } else {
                assert(self.arena.is_live(p));
                assert(self.links_agree(p));
                assert(v0.is_live(p));
                assert(v0.children_belong(p));
                let c = after.kids@[p];
                assert(c == v0.children_of(p));
                if nxt != 0 {
                    assert(v0.parent_of(k[r + 1]) == par);
                }
                assert forall|i: int| 0 <= i < c.len() implies {
                    &&& after.arena@[#[trigger] c[i]].next_sibling == self.arena@[c[i]].next_sibling
                    &&& after.arena@[c[i]].prev_sibling == self.arena@[c[i]].prev_sibling
                } by {
                    assert(v0.parent_of(c[i]) == p);
                }
                assert forall|i: int, j: int| 0 <= i && j == i + 1 && j < c.len() implies {
                    &&& after.arena@[#[trigger] c[i]].next_sibling == #[trigger] c[j]
                    &&& after.arena@[c[j]].prev_sibling == c[i]
                } by {
                    assert(self.arena@[c[i]].next_sibling == c[j]);
                }
            }
        }
    }

    /// Puts a new node right behind the live node `sibling`, which is not
    /// the root.
    fn insert_after(&mut self, sibling: i64, data: i32) -> (pos: i64)
        requires
            old(self).wf(),
            old(self)@.next_pos() < i64::MAX,
            old(self)@.is_live(sibling as int),
            sibling != old(self)@.root,
        ensures
            final(self).wf(),
            pos == old(self)@.next_pos(),
            final(self)@ == old(self)@.with_sibling_after(sibling as int, data),
    {
        let ghost v0 = self@;
        let ghost r = v0.rank_of(sibling as int);
        let ghost k = v0.children_of(v0.parent_of(sibling as int));
        proof {
            self.lemma_sibling_links(sibling as int);
            v0.lemma_rank(sibling as int);
            assert(v0.children_belong(v0.parent_of(sibling as int)));
            if r + 1 < k.len() {
                lemma_distinct_at(k, r, r + 1);
                assert(v0.nodes[k[r + 1]].live);
            }
        }
        let sib = self.arena.node(sibling);
        let parent = sib.parent;
        let next = sib.next_sibling;
        let pos = self.arena.allocate(data);
        let mut fresh = self.arena.node(pos);
        fresh.parent = parent;
        fresh.prev_sibling = sibling;
        fresh.next_sibling = next;
        self.arena.put(pos, fresh);
        let mut sib = sib;
        sib.next_sibling = pos;
        self.arena.put(sibling, sib);
        if next != NULL_POS {
            let mut n = self.arena.node(next);
            n.prev_sibling = pos;
            self.arena.put(next, n);
        } else {
            let mut par = self.arena.node(parent);
            par.last_child = pos;
            self.arena.put(parent, par);
        }
        proof {
            self.kids@ = self.kids@.push(Seq::empty()).update(
                parent as int,
                k.insert(r + 1, pos as int),
            );
            old(self).lemma_inserted(self, sibling as int, data);
            v0.lemma_with_sibling_after_wf(sibling as int, data);
        }
        pos
    }

    /// Giving a childless node its first child yields the tree that the view
    /// describes, with links that agree.
    proof fn lemma_first_child_added(&self, after: &Tree, parent: int, data: i32)
        requires
            self.wf(),
            self@.is_live(parent),
            self@.children_of(parent).len() == 0,
            self.arena@.len() < i64::MAX,
            after.root == self.root,
            after.arena@ == self.arena@.update(
                parent,
                Node {
                    first_child: self.arena@.len() as i64,
                    last_child: self.arena@.len() as i64,
                    ..self.arena@[parent]
                },
            ).push(Node { parent: parent as i64, ..Node::fresh(data) }),
            after.kids@ == self.kids@.push(Seq::empty()).update(
                parent,
                Seq::empty().push(self.arena@.len() as int),
            ),
        ensures
            after.links_wf(),
            after@ == self@.with_child(parent, data),
    {
        let v0 = self@;
        let q = self.arena@.len() as int;
        self.lemma_sibling_links(parent);
        assert(v0.children_of(parent).push(q) =~= Seq::empty().push(q));
        assert(after@.nodes =~= v0.with_child(parent, data).nodes);
        assert forall|p: int| #[trigger] after.arena.is_live(p) implies after.links_agree(p) by {
            if p != q && p != parent {
                assert(self.arena.is_live(p));
                assert(self.links_agree(p));
                assert(v0.is_live(p));
                assert(v0.children_belong(p));
                let c = after.kids@[p];
                assert(c == v0.children_of(p));
                assert forall|i: int| 0 <= i < c.len() implies {
                    &&& after.arena@[#[trigger] c[i]].next_sibling == self.arena@[c[i]].next_sibling
                    &&& after.arena@[c[i]].prev_sibling == self.arena@[c[i]].prev_sibling
                } by {}
                assert forall|i: int, j: int| 0 <= i && j == i + 1 && j < c.len() implies {
                    &&& after.arena@[#[trigger] c[i]].next_sibling == #[trigger] c[j]
                    &&& after.arena@[c[j]].prev_sibling == c[i]
                } by {
                    assert(self.arena@[c[i]].next_sibling == c[j]);
                }
            }
        }
    }

    /// Appends a new node with payload `data` as the last child of `parent`.
    pub fn add_child(&mut self, parent: i64, data: i32) -> (r: Result<i64, TreeError>)
        requires
            old(self).wf(),
            old(self)@.next_pos() < i64::MAX,
        ensures
            final(self).wf(),
            old(self)@.is_live(parent as int) ==> r == Ok::<i64, TreeError>(
                old(self)@.next_pos() as i64,
            ) && final(self)@ == old(self)@.with_child(parent as int, data),
            !old(self)@.is_live(parent as int) ==> r == Err::<i64, TreeError>(
                TreeError::InvalidPosition,
            ) && final(self)@ == old(self)@,
    {
        if !self.arena.contains(parent) {
            return Err(TreeError::InvalidPosition);
        }
        let ghost v0 = self@;
        let ghost k = v0.children_of(parent as int);
        proof {
            assert(v0.is_live(parent as int));
            assert(v0.wf());
            self.lemma_sibling_links(parent as int);
            assert(v0.children_belong(parent as int));
            if k.len() > 0 {
                v0.lemma_rank_of_child(parent as int, k.len() - 1);
            }
        }
        let last = self.arena.node(parent).last_child;
        if last != NULL_POS {
            let pos = self.insert_after(last, data);
            proof {
                assert(k.insert(k.len() as int, v0.next_pos()) =~= k.push(v0.next_pos()));
            }
            return Ok(pos);
        }
        let pos = self.arena.allocate(data);
        let mut fresh = self.arena.node(pos);
        fresh.parent = parent;
        self.arena.put(pos, fresh);
        let mut par = self.arena.node(parent);
        par.first_child = pos;
        par.last_child = pos;
        self.arena.put(parent, par);
        proof {
            self.kids@ = self.kids@.push(Seq::empty()).update(
                parent as int,
                Seq::empty().push(pos as int),
            );
            assert(self.arena@ =~= old(self).arena@.update(
                parent as int,
                Node { first_child: pos, last_child: pos, ..old(self).arena@[parent as int] },
            ).push(Node { parent: parent, ..Node::fresh(data) }));
            old(self).lemma_first_child_added(self, parent as int, data);
            v0.lemma_with_child_wf(parent as int, data);
        }
        Ok(pos)
    }

    /// Puts a new node with payload `data` right behind `sibling` in the child
    /// list that `sibling` stands in. The root stands in no child list, so
    /// nothing can be put behind it.
    pub fn insert_next_sibling(&mut self, sibling: i64, data: i32) -> (r: Result<i64, TreeError>)
        requires
            old(self).wf(),
            old(self)@.next_pos() < i64::MAX,
        ensures
            final(self).wf(),
            old(self)@.is_child(sibling as int) ==> r == Ok::<i64, TreeError>(
                old(self)@.next_pos() as i64,
            ) && final(self)@ == old(self)@.with_sibling_after(sibling as int, data),
            !old(self)@.is_child(sibling as int) ==> r == Err::<i64, TreeError>(
                TreeError::InvalidPosition,
            ) && final(self)@ == old(self)@,
    {
        if !self.arena.contains(sibling) || sibling == self.root {
            return Err(TreeError::InvalidPosition);
        }
        Ok(self.insert_after(sibling, data))
    }

    /// The same as `insert_next_sibling`, under its other name.
    pub fn append_sibling(&mut self, sibling: i64, data: i32) -> (r: Result<i64, TreeError>)
        requires
            old(self).wf(),
            old(self)@.next_pos() < i64::MAX,
        ensures
            final(self).wf(),
            old(self)@.is_child(sibling as int) ==> r == Ok::<i64, TreeError>(
                old(self)@.next_pos() as i64,
            ) && final(self)@ == old(self)@.with_sibling_after(sibling as int, data),
            !old(self)@.is_child(sibling as int) ==> r == Err::<i64, TreeError>(
                TreeError::InvalidPosition,
            ) && final(self)@ == old(self)@,
    {
        self.insert_next_sibling(sibling, data)
    }

    /// Makes the node at `pos` embed the tree `target`, in place of whatever
    /// it embedded before, and returns what it embedded before. A target that
    /// is not a tree identifier (those are negative) is turned down.
    pub fn add_subtree_ref(&mut self, pos: i64, target: i64) -> (r: Result<Option<i64>, TreeError>)
        requires
            old(self).wf(),
        ensures
            final(self).wf(),
            r == if !old(self)@.is_live(pos as int) {
                Err::<Option<i64>, TreeError>(TreeError::InvalidPosition)
            } else if target >= 0 {
                Err::<Option<i64>, TreeError>(TreeError::UnknownTree)
            } else {
                Ok::<Option<i64>, TreeError>(old(self)@.nodes[pos as int].subtree_ref)
            },
            final(self)@ == if r is Ok {
                old(self)@.with_ref(pos as int, target)
            } else {
                old(self)@
            },
    {
        if !self.arena.contains(pos) {
            return Err(TreeError::InvalidPosition);
        }
        if target >= 0 {
            return Err(TreeError::UnknownTree);
        }
        let mut n = self.arena.node(pos);
        let before = n.subtree_ref;
        n.subtree_ref = Some(target);
        self.arena.put(pos, n);
        proof {
            let v0 = old(self)@;
            assert(self@.nodes =~= v0.with_ref(pos as int, target).nodes);
            v0.lemma_with_ref_wf(pos as int, target);
            assert forall|p: int| #[trigger] self.arena.is_live(p) implies self.links_agree(p) by {
                assert(old(self).arena.is_live(p));
                assert(old(self).links_agree(p));
                assert(v0.is_live(p));
                assert(v0.children_belong(p));
                let c = self.kids@[p];
                assert(c == v0.children_of(p));
                assert forall|i: int, j: int| 0 <= i && j == i + 1 && j < c.len() implies {
                    &&& self.arena@[#[trigger] c[i]].next_sibling == #[trigger] c[j]
                    &&& self.arena@[c[j]].prev_sibling == c[i]
                } by {
                    assert(old(self).arena@[c[i]].next_sibling == c[j]);
                }
            }
        }
        Ok(before)
    }

    /// The record that slot `x` holds once the childless node at `p` is
    /// unlinked and given up.
    closed spec fn record_after_unlink(&self, p: int, x: int) -> Node {
        let gone = self.arena@[p];
        if x == p {
            Node::vacant()
        } else if x != 0 && x == gone.prev_sibling {
            Node { next_sibling: gone.next_sibling, ..self.arena@[x] }
        } else if x != 0 && x == gone.next_sibling {
            Node { prev_sibling: gone.prev_sibling, ..self.arena@[x] }
        } else if x == gone.parent {
            Node {
                first_child: if gone.prev_sibling == 0 {
                    gone.next_sibling
                } else {
                    self.arena@[x].first_child
                },
                last_child: if gone.next_sibling == 0 {
                    gone.prev_sibling
                } else {
                    self.arena@[x].last_child
                },
                ..self.arena@[x]
            }
        } else {
            self.arena@[x]
        }
    }

    /// Unlinking a childless node gives the tree that the view describes,
    /// with links that agree.
    proof fn lemma_unlinked(&self, after: &Tree, p: int)
        requires
            self.wf(),
            self@.is_live(p),
            p != self.root,
            self@.children_of(p).len() == 0,
            after.root == self.root,
            after.arena@.len() == self.arena@.len(),
            forall|x: int|
                0 <= x < after.arena@.len() ==> #[trigger] after.arena@[x]
                    == self.record_after_unlink(p, x),
            after.kids@ == self.kids@.update(
                self@.parent_of(p),
                self@.children_of(self@.parent_of(p)).remove(self@.rank_of(p)),
            ),
        ensures
            after.links_wf(),
            after@ == self@.without_leaf(p),
    {
        let v0 = self@;
        let par = v0.parent_of(p);
        let r = v0.rank_of(p);
        let k = v0.children_of(par);
        let k2 = k.remove(r);
        let prv = self.arena@[p].prev_sibling as int;
        let nxt = self.arena@[p].next_sibling as int;
        self.lemma_sibling_links(p);
        v0.lemma_rank(p);
        self.lemma_sibling_links(par);
        assert(v0.children_belong(par));
        lemma_distinct_remove(k, r);
        assert(nxt == (if r + 1 < k.len() { k[r + 1] } else { 0 }));
        assert(prv == (if r > 0 { k[r - 1] } else { 0 }));
        if r > 0 {
            lemma_distinct_at(k, r - 1, r);
            if r + 1 < k.len() {
                lemma_distinct_at(k, r - 1, r + 1);
            }
        }
        if r + 1 < k.len() {
            lemma_distinct_at(k, r + 1, r);
        }
        assert forall|i: int| 0 <= i < k.len() implies par < #[trigger] k[i] && v0.parent_of(k[i])
            == par by {}
        assert(after@.nodes =~= v0.without_leaf(p).nodes);
        assert(after.arena@[0] == Node::vacant());
        assert forall|x: int| #[trigger] after.arena.is_live(x) implies after.links_agree(x) by {
            assert(self.arena.is_live(x));
            assert(self.links_agree(x));
            assert(v0.is_live(x));
            assert(v0.children_belong(x));
            if x == par {
                assert(after.kids@[x] == k2);
                assert forall|i: int, j: int| 0 <= i && j == i + 1 && j < k2.len() implies {
                    &&& after.arena@[#[trigger] k2[i]].next_sibling == #[trigger] k2[j]
                    &&& after.arena@[k2[j]].prev_sibling == k2[i]
                } by {
                    if j < r {
                        assert(k2[i] == k[i] && k2[j] == k[j]);
                        lemma_distinct_at(k, i, r);
                        lemma_distinct_at(k, j, r);
                        if r + 1 < k.len() {
                            lemma_distinct_at(k, i, r + 1);
                            lemma_distinct_at(k, j, r + 1);
                        }
                        if i != r - 1 {
                            lemma_distinct_at(k, i, r - 1);
                        }
                        assert(self.arena@[k[i]].next_sibling == k[j]);
                    } else if j == r {
                        assert(k2[i] == k[r - 1] && k2[j] == k[r + 1]);
                    } else {
                        assert(k2[i] == k[i + 1] && k2[j] == k[j + 1]);
                        lemma_distinct_at(k, i + 1, r);
                        lemma_distinct_at(k, j + 1, r);
                        lemma_distinct_at(k, j + 1, r + 1);
                        if r > 0 {
                            lemma_distinct_at(k, i + 1, r - 1);
                            lemma_distinct_at(k, j + 1, r - 1);
                        }
                        assert(self.arena@[k[i + 1]].next_sibling == k[j + 1]);
                    }
                }
                if k2.len() > 0 {
                    if r == 0 {
                        assert(k2[0] == k[1]);
                    } else {
                        assert(k2[0] == k[0]);
                        lemma_distinct_at(k, 0, r);
                        if r + 1 < k.len() {
                            lemma_distinct_at(k, 0, r + 1);
                        }
                    }
                    if r == k.len() - 1 {
                        assert(k2[k2.len() - 1] == k[r - 1]);
                    } else {
                        assert(k2[k2.len() - 1] == k[k.len() - 1]);
                        if r > 0 {
                            lemma_distinct_at(k, k.len() - 1, r - 1);
                        }
                    }
                }
            } else {
                let c = after.kids@[x];
                assert(c == v0.children_of(x));
                assert forall|i: int| 0 <= i < c.len() implies {
                    &&& after.arena@[#[trigger] c[i]].next_sibling == self.arena@[c[i]].next_sibling
                    &&& after.arena@[c[i]].prev_sibling == self.arena@[c[i]].prev_sibling
                } by {
                    assert(v0.parent_of(c[i]) == x);
                }
                assert forall|i: int, j: int| 0 <= i && j == i + 1 && j < c.len() implies {
                    &&& after.arena@[#[trigger] c[i]].next_sibling == #[trigger] c[j]
                    &&& after.arena@[c[j]].prev_sibling == c[i]
                } by {
                    assert(self.arena@[c[i]].next_sibling == c[j]);
                }
            }
        }
    }

    /// Deletes the childless node at `pos` and returns the tree that it
    /// embedded, if any: that embedding is thereby given up. The root stays
    /// for as long as the tree does.
    pub fn delete_leaf(&mut self, pos: i64) -> (r: Result<Option<i64>, TreeError>)
        requires
            old(self).wf(),
        ensures
            final(self).wf(),
            r == if !old(self)@.is_live(pos as int) {
                Err::<Option<i64>, TreeError>(TreeError::InvalidPosition)
            } else if old(self)@.children_of(pos as int).len() > 0 {
                Err::<Option<i64>, TreeError>(TreeError::NotALeaf)
            } else if pos == old(self)@.root {
                Err::<Option<i64>, TreeError>(TreeError::CannotDeleteRoot)
            } else {
                Ok::<Option<i64>, TreeError>(old(self)@.nodes[pos as int].subtree_ref)
            },
            final(self)@ == if r is Ok {
                old(self)@.without_leaf(pos as int)
            } else {
                old(self)@
            },
    {
        if !self.arena.contains(pos) {
            return Err(TreeError::InvalidPosition);
        }
        let ghost v0 = self@;
        proof {
            assert(v0.is_live(pos as int));
            self.lemma_sibling_links(pos as int);
        }
        let gone = self.arena.node(pos);
        if gone.first_child != NULL_POS {
            return Err(TreeError::NotALeaf);
        }
        if pos == self.root {
            return Err(TreeError::CannotDeleteRoot);
        }
        let ghost r = v0.rank_of(pos as int);
        let ghost k = v0.children_of(v0.parent_of(pos as int));
        proof {
            v0.lemma_rank(pos as int);
            assert(v0.children_belong(v0.parent_of(pos as int)));
            if r + 1 < k.len() {
                lemma_distinct_at(k, r, r + 1);
                assert(v0.nodes[k[r + 1]].live);
            }
            if r > 0 {
                lemma_distinct_at(k, r, r - 1);
                assert(v0.nodes[k[r - 1]].live);
                if r + 1 < k.len() {
                    lemma_distinct_at(k, r - 1, r + 1);
                }
            }
        }
        if gone.prev_sibling != NULL_POS {
            let mut before = self.arena.node(gone.prev_sibling);
            before.next_sibling = gone.next_sibling;
            self.arena.put(gone.prev_sibling, before);
        } else {
            let mut par = self.arena.node(gone.parent);
            par.first_child = gone.next_sibling;
            self.arena.put(gone.parent, par);
        }
        if gone.next_sibling != NULL_POS {
            let mut behind = self.arena.node(gone.next_sibling);
            behind.prev_sibling = gone.prev_sibling;
            self.arena.put(gone.next_sibling, behind);
        } else {
            let mut par = self.arena.node(gone.parent);
            par.last_child = gone.prev_sibling;
            self.arena.put(gone.parent, par);
        }
        self.arena.release(pos);
        proof {
            self.kids@ = self.kids@.update(gone.parent as int, k.remove(r));
            old(self).lemma_unlinked(self, pos as int);
            v0.lemma_without_leaf_wf(pos as int);
        }
        Ok(gone.subtree_ref)
    }

    /// Deletes the node at `pos` and everything below it, and returns the
    /// trees that the deleted nodes embedded, one entry for each embedding
    /// that is thereby given up. The root stays for as long as the tree does.
    pub fn delete_subtree(&mut self, pos: i64) -> (r: Result<Vec<i64>, TreeError>)
        requires
            old(self).wf(),
        ensures
            final(self).wf(),
            r is Err <==> !old(self)@.is_live(pos as int) || pos == old(self)@.root,
            r matches Err(e) ==> final(self)@ == old(self)@ && e == if old(self)@.is_live(
                pos as int,
            ) {
                TreeError::CannotDeleteRoot
            } else {
                TreeError::InvalidPosition
            },
            r matches Ok(released) ==> final(self)@ == old(self)@.without_subtree(pos as int)
                && forall|target: i64| #[trigger]
                    occurrences(released@, target) == old(self)@.refs_within(pos as int, target),
    {
        if !self.arena.contains(pos) {
            return Err(TreeError::InvalidPosition);
        }
        if pos == self.root {
            return Err(TreeError::CannotDeleteRoot);
        }
        let ghost v0 = self@;
        let mut released: Vec<i64> = Vec::new();
        let mut cur = pos;
        let mut done = false;
        while !done
            invariant
                self.wf(),
                v0.wf(),
                v0 == old(self)@,
                self@.root == v0.root,
                self@.nodes.len() == v0.nodes.len(),
                v0.is_live(pos as int),
                pos != v0.root,
                !done ==> self@.in_subtree(cur as int, pos as int),
                !done ==> self@.is_live(pos as int),
                !done ==> forall|z: int| #[trigger]
                    self@.is_live(z) ==> v0.is_live(z) && self@.parent_of(z) == v0.parent_of(z),
                !done ==> forall|z: int|
                    v0.is_live(z) && !v0.in_subtree(z, pos as int) ==> #[trigger] self@.nodes[z]
                        == v0.nodes[z],
                done ==> self@ == v0.without_subtree(pos as int),
                forall|target: i64|
                    occurrences(released@, target) + self@.refs_to(target) == v0.refs_to(target),
            decreases
                    if done { 0 } else { 1 + self@.live_count() },
                    self@.nodes.len() - cur,
        {
            let ghost v = self@;
            proof {
                v.lemma_in_subtree_younger(cur as int, pos as int);
                self.lemma_sibling_links(cur as int);
                assert(v.children_belong(cur as int));
            }
            let n = self.arena.node(cur);
            if n.last_child != NULL_POS {
                proof {
                    v.lemma_child_in_subtree(
                        cur as int,
                        v.children_of(cur as int).len() - 1,
                        pos as int,
                    );
                }
                cur = n.last_child;
            } else {
                proof {
                    if cur == v.root {
                        assert(v.in_subtree(cur as int, pos as int));
                    }
                    v.lemma_rank(cur as int);
                }
                let r = self.delete_leaf(cur);
                let ghost before = released@;
                match r {
                    Ok(Some(target)) => {
                        released.push(target);
                    },
                    _ => {},
                }
                proof {
                    let v2 = self@;
                    assert(v2 == v.without_leaf(cur as int));
                    assert forall|target: i64|
                        occurrences(released@, target) + v2.refs_to(target) == v0.refs_to(
                            target,
                        ) by {
                        v.lemma_without_leaf_counts(cur as int, target);
                        match v.nodes[cur as int].subtree_ref {
                            Some(held) => {
                                lemma_occurrences_push(before, held, target);
                            },
                            None => {},
                        }
                    }
                    v.lemma_without_leaf_counts(cur as int, 0);
                    assert forall|z: int| #[trigger] v2.is_live(z) implies v0.is_live(z)
                        && v2.parent_of(z) == v0.parent_of(z) by {
                        assert(v.is_live(z));
                    }
                    if cur == pos {
                        v.lemma_subtree_gone(v0, pos as int);
                    } else {
                        let parent = v.parent_of(cur as int);
                        v.lemma_in_subtree_before(v0, cur as int, pos as int);
                        v.lemma_in_subtree_before(v0, parent, pos as int);
                        v2.lemma_in_subtree_local(v, parent, pos as int);
                    }
                }
                if cur == pos {
                    done = true;
                } else {
                    cur = n.parent;
                }
            }
        }
        proof {
            assert forall|target: i64| #[trigger]
                occurrences(released@, target) == v0.refs_within(pos as int, target) by {
                v0.lemma_without_subtree_counts(pos as int, target);
            }
        }
        Ok(released)
    }

    /// The trees that the nodes of this tree embed, one entry for each node
    /// that embeds one.
    pub fn held_refs(&self) -> (held: Vec<i64>)
        requires
            self.wf(),
        ensures
            forall|target: i64| occurrences(held@, target) == self@.refs_to(target),
    {
        let mut held: Vec<i64> = Vec::new();
        let n = self.arena.len();
        let mut i: usize = 0;
        while i < n
            invariant
                self.wf(),
                n == self@.nodes.len(),
                i <= n,
                forall|target: i64|
                    occurrences(held@, target) == refs_among(self@.nodes, target, i as nat),
            decreases n - i,
        {
            let node = self.arena.node(i as i64);
            let ghost before = held@;
            if node.live {
                match node.subtree_ref {
                    Some(target) => {
                        held.push(target);
                    },
                    None => {},
                }
            }
            proof {
                assert forall|target: i64|
                    occurrences(held@, target) == refs_among(
                        self@.nodes,
                        target,
                        (i + 1) as nat,
                    ) by {
                    if node.live {
                        match node.subtree_ref {
                            Some(t) => {
                                lemma_occurrences_push(before, t, target);
                            },
                            None => {},
                        }
                    }
                    assert(ref_weight(self@.nodes[i as int], target) == if node.live
                        && node.subtree_ref == Some(target) {
                        1nat
                    } else {
                        0nat
                    });
                }
            }
            i = i + 1;
        }
        held
    }

    /// A pre-order cursor over this tree alone. See `PreOrderIterator::new`.
    pub fn pre_ord_iter(&self, follow_subtrees: bool) -> (it: PreOrderIterator<'_>)
        requires
            self.wf(),
        ensures
            it.wf(),
            it.slots() == Seq::<Option<TreeView>>::empty(),
            it.follows() == follow_subtrees,
            it.remaining() == preorder(Seq::empty(), self@, false),
    {
        PreOrderIterator::new(self, follow_subtrees)
    }

    /// A post-order cursor over this tree alone. See
    /// `PostOrderIterator::new`.
    pub fn post_ord_iter(&self, follow_subtrees: bool) -> (it: PostOrderIterator<'_>)
        requires
            self.wf(),
        ensures
            it.wf(),
            it.slots() == Seq::<Option<TreeView>>::empty(),
            it.follows() == follow_subtrees,
            it.remaining() == postorder(Seq::empty(), self@, false),
    {
        PostOrderIterator::new(self, follow_subtrees)
    }
}

} // verus!
