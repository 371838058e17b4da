//! Cursors: walks over a tree that yield one node at a time.
//!
//! A cursor looks one position ahead: it stands on the node that it yields
//! next. It borrows what it walks, so nothing can change under it. Once the
//! walk is over, the cursor stays at the null position.
//!
//! A cursor yields each node as its position and its payload. Where the walk
//! is in an embedded tree, the position is the one that the node has there.

use vstd::prelude::*;
use crate::embedding::lemma_walk_alone;
use crate::error::TreeError;
use crate::forest::Forest;
use crate::model::TreeView;
use crate::steps::{
    lemma_post_step_along, lemma_post_step_down, lemma_post_step_in, lemma_post_step_out,
    lemma_pre_step_along, lemma_pre_step_down, lemma_pre_step_out,
};
use crate::traversal::{
    depth_left, entered, post_after, post_children, post_from, postorder, pre_after,
    pre_children, pre_from, preorder, visit_of, Level, Visit,
};
use crate::tree::Tree;

verus! {

/// A node whose embedded tree the walk is in: the walk comes back to the
/// children of this node when it is done with that tree.
struct Frame<'a> {
    tree: &'a Tree,
    pos: i64,
}

/// The slots in which a walk looks up the trees that nodes embed: those of the
/// forest, or none for a tree that belongs to no forest.
spec fn slots_of(forest: Option<&Forest>) -> Seq<Option<TreeView>> {
    match forest {
        Some(f) => f@.trees,
        None => Seq::empty(),
    }
}

/// The levels that a stack of frames stands for.
spec fn levels_of(stack: Seq<Frame>) -> Seq<Level> {
    Seq::new(stack.len(), |i: int| Level { tree: stack[i].tree@, pos: stack[i].pos as int })
}

/// The frames are sound: each names a live node of a well-formed tree.
spec fn frames_wf(stack: Seq<Frame>) -> bool {
    forall|i: int|
        0 <= i < stack.len() ==> (#[trigger] stack[i]).tree.wf() && stack[i].tree@.is_live(
            stack[i].pos as int,
        )
}

/// A pre-order cursor: every node before its children, and the tree that a
/// node embeds, where the walk follows embeddings, right behind that node.
pub struct PreOrderIterator<'a> {
    forest: Option<&'a Forest>,
    stack: Vec<Frame<'a>>,
    tree: &'a Tree,
    /// The node that is yielded next; the null position once the walk is over.
    pos: i64,
    follow: bool,
}

/// The tree that the walk enters at a node that embeds `target`, if any.
fn lookup<'a>(
    forest: Option<&'a Forest>,
    target: Option<i64>,
    follow: bool,
    depth: usize,
    Ghost(t): Ghost<TreeView>,
    Ghost(n): Ghost<int>,
) -> (r: Option<&'a Tree>)
    requires
        forest matches Some(f) ==> f.wf(),
        depth <= slots_of(forest).len(),
        t.nodes[n].subtree_ref == target,
    ensures
        r matches Some(inner) ==> inner.wf() && inner@.root != 0 && depth < slots_of(forest).len()
            && entered(slots_of(forest), t, n, follow, (slots_of(forest).len() - depth) as nat)
            == Some(inner@),
        r is None ==> entered(
            slots_of(forest),
            t,
            n,
            follow,
            (slots_of(forest).len() - depth) as nat,
        ) is None,
{
    if !follow {
        return None;
    }
    match (forest, target) {
        (Some(f), Some(id)) => {
            if depth >= f.issued() {
                return None;
            }
            match f.tree_at(id) {
                Ok(inner) => Some(inner),
                Err(_) => None,
            }
        },
        _ => None,
    }
}

impl<'a> PreOrderIterator<'a> {
    /// The slots of the forest that the cursor walks in.
    pub closed spec fn slots(&self) -> Seq<Option<TreeView>> {
        slots_of(self.forest)
    }

    /// Whether the cursor follows embeddings.
    pub closed spec fn follows(&self) -> bool {
        self.follow
    }

    /// The invariant of a cursor.
    pub closed spec fn wf(&self) -> bool {
        &&& self.forest matches Some(f) ==> f.wf()
        &&& self.tree.wf()
        &&& self.pos == 0 || self.tree@.is_live(self.pos as int)
        &&& self.stack@.len() <= self.slots().len()
        &&& frames_wf(self.stack@)
    }

    /// What the cursor still yields, in order.
    pub closed spec fn remaining(&self) -> Seq<Visit> {
        if self.pos == 0 {
            Seq::empty()
        } else {
            pre_from(
                self.slots(),
                self.tree@,
                self.pos as int,
                self.follow,
                depth_left(self.slots(), levels_of(self.stack@)),
            ) + pre_after(
                self.slots(),
                levels_of(self.stack@),
                self.tree@,
                self.pos as int,
                self.follow,
            )
        }
    }

    /// A cursor over `tree` alone. A tree by itself cannot look up the trees
    /// that its nodes embed, so the walk stays within `tree` whatever
    /// `follow_subtrees` says.
    pub fn new(tree: &'a Tree, follow_subtrees: bool) -> (it: Self)
        requires
            tree.wf(),
        ensures
            it.wf(),
            it.slots() == Seq::<Option<TreeView>>::empty(),
            it.follows() == follow_subtrees,
            it.remaining() == preorder(Seq::empty(), tree@, false),
    {
        let it = PreOrderIterator {
            forest: None,
            stack: Vec::new(),
            tree,
            pos: tree.get_root(),
            follow: follow_subtrees,
        };
        proof {
            assert(levels_of(it.stack@) =~= Seq::empty());
            if it.pos != 0 {
                assert(pre_after(
                    it.slots(),
                    levels_of(it.stack@),
                    tree@,
                    it.pos as int,
                    follow_subtrees,
                ) =~= Seq::empty());
            }
            lemma_walk_alone(Seq::empty(), tree@, follow_subtrees);
        }
        it
    }

    /// A cursor over the tree `tree_id` of `forest`.
    pub fn in_forest(forest: &'a Forest, tree_id: i64, follow_subtrees: bool) -> (r: Result<
        Self,
        TreeError,
    >)
        requires
            forest.wf(),
        ensures
            r is Ok <==> forest@.is_registered(tree_id),
            r matches Ok(it) ==> it.wf() && it.slots() == forest@.trees && it.follows()
                == follow_subtrees && it.remaining() == preorder(
                forest@.trees,
                forest@.tree(tree_id),
                follow_subtrees,
            ),
            r matches Err(e) ==> e == TreeError::UnknownTree,
    {
        match forest.tree_at(tree_id) {
            Ok(tree) => Ok(PreOrderIterator::at_root(forest, tree, follow_subtrees)),
            Err(e) => Err(e),
        }
    }

    /// A cursor at the root of `tree`, which looks up embedded trees in
    /// `forest`.
    pub(crate) fn at_root(forest: &'a Forest, tree: &'a Tree, follow_subtrees: bool) -> (it: Self)
        requires
            forest.wf(),
            tree.wf(),
        ensures
            it.wf(),
            it.slots() == forest@.trees,
            it.follows() == follow_subtrees,
            it.remaining() == preorder(forest@.trees, tree@, follow_subtrees),
    {
        let it = PreOrderIterator {
            forest: Some(forest),
            stack: Vec::new(),
            tree,
            pos: tree.get_root(),
            follow: follow_subtrees,
        };
        proof {
            assert(levels_of(it.stack@) =~= Seq::empty());
            if it.pos != 0 {
                assert(pre_after(
                    it.slots(),
                    levels_of(it.stack@),
                    tree@,
                    it.pos as int,
                    follow_subtrees,
                ) =~= Seq::empty());
            }
        }
        it
    }

    /// The position that the cursor stands on: the node that `next` yields
    /// next, or the null position once the walk is over.
    pub fn deref(&self) -> (pos: i64)
        requires
            self.wf(),
        ensures
            pos == if self.remaining().len() > 0 {
                self.remaining()[0].0
            } else {
                0
            },
    {
        self.pos
    }

    /// The payload of the node that the cursor stands on.
    pub fn get_data(&self) -> (r: Result<i32, TreeError>)
        requires
            self.wf(),
        ensures
            r == if self.remaining().len() > 0 {
                Ok::<i32, TreeError>(self.remaining()[0].1)
            } else {
                Err::<i32, TreeError>(TreeError::InvalidPosition)
            },
    {
        self.tree.get_data(self.pos)
    }

    /// Moves on from a node that the walk is done with, together with
    /// everything below it, to the node that the walk visits next.
    fn climb(&mut self)
        requires
            old(self).wf(),
            old(self).pos != 0,
        ensures
            final(self).wf(),
            final(self).slots() == old(self).slots(),
            final(self).follows() == old(self).follows(),
            final(self).remaining() == pre_after(
                old(self).slots(),
                levels_of(old(self).stack@),
                old(self).tree@,
                old(self).pos as int,
                old(self).follow,
            ),
    {
        let ghost goal = pre_after(
            self.slots(),
            levels_of(self.stack@),
            self.tree@,
            self.pos as int,
            self.follow,
        );
        let mut done = false;
        while !done
            invariant
                self.wf(),
                self.slots() == old(self).slots(),
                self.follow == old(self).follow,
                !done ==> self.pos != 0 && goal == pre_after(
                    self.slots(),
                    levels_of(self.stack@),
                    self.tree@,
                    self.pos as int,
                    self.follow,
                ),
                done ==> goal == self.remaining(),
            decreases
                    if done { 0int } else { 1int },
                    self.stack@.len(),
                    self.pos,
        {
            let ghost levels = levels_of(self.stack@);
            let ghost t = self.tree@;
            let n = self.tree.record(self.pos);
            if n.parent != 0 {
                proof {
                    lemma_pre_step_along(self.slots(), levels, t, self.pos as int, self.follow);
                }
                if n.next_sibling != 0 {
                    self.pos = n.next_sibling;
                    done = true;
                } else {
                    self.pos = n.parent;
                }
            } else {
                proof {
                    assert(self.pos == t.root) by {
                        if self.pos != t.root {
                            t.lemma_rank(self.pos as int);
                        }
                    }
                    lemma_pre_step_out(self.slots(), levels, t, self.follow);
                }
                match self.stack.pop() {
                    None => {
                        self.pos = 0;
                        done = true;
                    },
                    Some(frame) => {
                        proof {
                            assert(levels_of(self.stack@) =~= levels.drop_last());
                            assert(levels.last() == Level {
                                tree: frame.tree@,
                                pos: frame.pos as int,
                            });
                        }
                        self.tree = frame.tree;
                        self.pos = frame.pos;
                        let outer = self.tree.record(self.pos);
                        if outer.first_child != 0 {
                            proof {
                                lemma_pre_step_down(
                                    self.slots(),
                                    levels_of(self.stack@),
                                    self.tree@,
                                    self.pos as int,
                                    self.follow,
                                );
                            }
                            self.pos = outer.first_child;
                            done = true;
                        } else {
                            proof {
                                let rest = pre_after(
                                    self.slots(),
                                    levels_of(self.stack@),
                                    self.tree@,
                                    self.pos as int,
                                    self.follow,
                                );
                                assert(Seq::<Visit>::empty() + rest =~= rest);
                            }
                        }
                    },
                }
            }
        }
    }

    /// Yields the node that the cursor stands on and moves on to the next,
    /// or yields nothing once the walk is over.
    pub fn next(&mut self) -> (r: Option<Visit>)
        requires
            old(self).wf(),
        ensures
            final(self).wf(),
            final(self).slots() == old(self).slots(),
            final(self).follows() == old(self).follows(),
            r == if old(self).remaining().len() > 0 {
                Some(old(self).remaining()[0])
            } else {
                None
            },
            final(self).remaining() == if old(self).remaining().len() > 0 {
                old(self).remaining().skip(1)
            } else {
                old(self).remaining()
            },
    {
        if self.pos == 0 {
            return None;
        }
        let ghost levels = levels_of(self.stack@);
        let ghost t = self.tree@;
        let ghost before = self.remaining();
        let ghost depth = depth_left(self.slots(), levels);
        let n = self.tree.record(self.pos);
        let out = (self.pos, n.data);
        let here = self.pos;
        let inner = lookup(
            self.forest,
            n.subtree_ref,
            self.follow,
            self.stack.len(),
            Ghost(t),
            Ghost(here as int),
        );
        proof {
            assert(depth == self.slots().len() - self.stack@.len());
            assert(before.skip(1) =~= (match entered(
                self.slots(),
                t,
                here as int,
                self.follow,
                depth,
            ) {
                Some(inner) => pre_from(
                    self.slots(),
                    inner,
                    inner.root,
                    self.follow,
                    (depth - 1) as nat,
                ),
                None => Seq::empty(),
            }) + pre_children(self.slots(), t, here as int, 0, self.follow, depth) + pre_after(
                self.slots(),
                levels,
                t,
                here as int,
                self.follow,
            ));
        }
        match inner {
            Some(inner) => {
                self.stack.push(Frame { tree: self.tree, pos: here });
                self.tree = inner;
                self.pos = inner.get_root();
                proof {
                    let levels2 = levels_of(self.stack@);
                    assert(levels2 =~= levels.push(Level { tree: t, pos: here as int }));
                    assert(levels2.drop_last() =~= levels);
                    lemma_pre_step_out(self.slots(), levels2, inner@, self.follow);
                    let a = pre_from(
                        self.slots(),
                        inner@,
                        inner@.root,
                        self.follow,
                        (depth - 1) as nat,
                    );
                    let b = pre_children(self.slots(), t, here as int, 0, self.follow, depth);
                    let c = pre_after(self.slots(), levels, t, here as int, self.follow);
                    assert((a + b) + c =~= a + (b + c));
                }
            },
            None => {
                if n.first_child != 0 {
                    proof {
                        lemma_pre_step_down(self.slots(), levels, t, here as int, self.follow);
                        let b = pre_children(self.slots(), t, here as int, 0, self.follow, depth);
                        let c = pre_after(self.slots(), levels, t, here as int, self.follow);
                        assert((Seq::<Visit>::empty() + b) + c =~= b + c);
                    }
                    self.pos = n.first_child;
                } else {
                    proof {
                        let b = pre_children(self.slots(), t, here as int, 0, self.follow, depth);
                        let c = pre_after(self.slots(), levels, t, here as int, self.follow);
                        assert(b =~= Seq::empty());
                        assert((Seq::<Visit>::empty() + b) + c =~= c);
                    }
                    self.climb();
                }
            },
        }
        Some(out)
    }
}

/// A post-order cursor: every node after its children, and the tree that a
/// node embeds, where the walk follows embeddings, before those children.
pub struct PostOrderIterator<'a> {
    forest: Option<&'a Forest>,
    stack: Vec<Frame<'a>>,
    tree: &'a Tree,
    /// The node that is yielded next; the null position once the walk is over.
    pos: i64,
    follow: bool,
}

impl<'a> PostOrderIterator<'a> {
    /// The slots of the forest that the cursor walks in.
    pub closed spec fn slots(&self) -> Seq<Option<TreeView>> {
        slots_of(self.forest)
    }

    /// Whether the cursor follows embeddings.
    pub closed spec fn follows(&self) -> bool {
        self.follow
    }

    /// The invariant of a cursor.
    pub closed spec fn wf(&self) -> bool {
        &&& self.forest matches Some(f) ==> f.wf()
        &&& self.tree.wf()
        &&& self.pos == 0 || self.tree@.is_live(self.pos as int)
        &&& self.stack@.len() <= self.slots().len()
        &&& frames_wf(self.stack@)
    }

    /// What the cursor still yields, in order.
    pub closed spec fn remaining(&self) -> Seq<Visit> {
        if self.pos == 0 {
            Seq::empty()
        } else {
            seq![visit_of(self.tree@, self.pos as int)] + post_after(
                self.slots(),
                levels_of(self.stack@),
                self.tree@,
                self.pos as int,
                self.follow,
            )
        }
    }

    /// Moves from a node that the walk has reached, with nothing below it
    /// visited yet, down to the node that the walk visits first.
    fn descend(&mut self)
        requires
            old(self).wf(),
            old(self).pos != 0,
        ensures
            final(self).wf(),
            final(self).slots() == old(self).slots(),
            final(self).follows() == old(self).follows(),
            final(self).remaining() == post_from(
                old(self).slots(),
                old(self).tree@,
                old(self).pos as int,
                old(self).follow,
                depth_left(old(self).slots(), levels_of(old(self).stack@)),
            ) + post_after(
                old(self).slots(),
                levels_of(old(self).stack@),
                old(self).tree@,
                old(self).pos as int,
                old(self).follow,
            ),
    {
        let ghost goal = self.remaining_below();
        let mut done = false;
        while !done
            invariant
                self.wf(),
                self.pos != 0,
                self.slots() == old(self).slots(),
                self.follow == old(self).follow,
                !done ==> goal == self.remaining_below(),
                done ==> goal == self.remaining(),
            decreases
                    if done { 0int } else { 1int },
                    self.slots().len() - self.stack@.len(),
                    self.tree@.nodes.len() - self.pos,
        {
            let ghost levels = levels_of(self.stack@);
            let ghost t = self.tree@;
            let ghost depth = depth_left(self.slots(), levels);
            let here = self.pos;
            let n = self.tree.record(here);
            let inner = lookup(
                self.forest,
                n.subtree_ref,
                self.follow,
                self.stack.len(),
                Ghost(t),
                Ghost(here as int),
            );
            proof {
                assert(depth == self.slots().len() - self.stack@.len());
            }
            match inner {
                Some(inner) => {
                    proof {
                        lemma_post_step_in(
                            self.slots(),
                            levels,
                            t,
                            here as int,
                            self.follow,
                            inner@,
                        );
                    }
                    self.stack.push(Frame { tree: self.tree, pos: here });
                    self.tree = inner;
                    self.pos = inner.get_root();
                    proof {
                        assert(levels_of(self.stack@) =~= levels.push(
                            Level { tree: t, pos: here as int },
                        ));
                    }
                },
                None => {
                    if n.first_child != 0 {
                        proof {
                            lemma_post_step_down(
                                self.slots(),
                                levels,
                                t,
                                here as int,
                                self.follow,
                            );
                            let pc = post_children(
                                self.slots(),
                                t,
                                here as int,
                                0,
                                self.follow,
                                depth,
                            );
                            assert(Seq::<Visit>::empty() + pc =~= pc);
                        }
                        self.pos = n.first_child;
                    } else {
                        proof {
                            let pc = post_children(
                                self.slots(),
                                t,
                                here as int,
                                0,
                                self.follow,
                                depth,
                            );
                            assert(pc =~= Seq::empty());
                            assert((Seq::<Visit>::empty() + pc) + seq![visit_of(t, here as int)]
                                =~= seq![visit_of(t, here as int)]);
                        }
                        done = true;
                    }
                },
            }
        }
    }

    /// What the cursor yields from a node that it has reached with nothing
    /// below it visited yet.
    spec fn remaining_below(&self) -> Seq<Visit> {
        post_from(
            self.slots(),
            self.tree@,
            self.pos as int,
            self.follow,
            depth_left(self.slots(), levels_of(self.stack@)),
        ) + post_after(
            self.slots(),
            levels_of(self.stack@),
            self.tree@,
            self.pos as int,
            self.follow,
        )
    }

    /// A cursor over `tree` alone. A tree by itself cannot look up the trees
    /// that its nodes embed, so the walk stays within `tree` whatever
    /// `follow_subtrees` says.
    pub fn new(tree: &'a Tree, follow_subtrees: bool) -> (it: Self)
        requires
            tree.wf(),
        ensures
            it.wf(),
            it.slots() == Seq::<Option<TreeView>>::empty(),
            it.follows() == follow_subtrees,
            it.remaining() == postorder(Seq::empty(), tree@, false),
    {
        let mut it = PostOrderIterator {
            forest: None,
            stack: Vec::new(),
            tree,
            pos: tree.get_root(),
            follow: follow_subtrees,
        };
        if it.pos != 0 {
            proof {
                assert(levels_of(it.stack@) =~= Seq::empty());
                let pf = post_from(it.slots(), tree@, it.pos as int, follow_subtrees, 0);
                assert(post_after(
                    it.slots(),
                    levels_of(it.stack@),
                    tree@,
                    it.pos as int,
                    follow_subtrees,
                ) =~= Seq::empty());
                assert(pf + Seq::<Visit>::empty() =~= pf);
            }
            it.descend();
        }
        proof {
            lemma_walk_alone(Seq::empty(), tree@, follow_subtrees);
        }
        it
    }

    /// A cursor over the tree `tree_id` of `forest`.
    pub fn in_forest(forest: &'a Forest, tree_id: i64, follow_subtrees: bool) -> (r: Result<
        Self,
        TreeError,
    >)
        requires
            forest.wf(),
        ensures
            r is Ok <==> forest@.is_registered(tree_id),
            r matches Ok(it) ==> it.wf() && it.slots() == forest@.trees && it.follows()
                == follow_subtrees && it.remaining() == postorder(
                forest@.trees,
                forest@.tree(tree_id),
                follow_subtrees,
            ),
            r matches Err(e) ==> e == TreeError::UnknownTree,
    {
        match forest.tree_at(tree_id) {
            Ok(tree) => Ok(PostOrderIterator::at_root(forest, tree, follow_subtrees)),
            Err(e) => Err(e),
        }
    }

    /// A cursor at the first node of the walk of `tree`, which looks up
    /// embedded trees in `forest`.
    pub(crate) fn at_root(forest: &'a Forest, tree: &'a Tree, follow_subtrees: bool) -> (it: Self)
        requires
            forest.wf(),
            tree.wf(),
        ensures
            it.wf(),
            it.slots() == forest@.trees,
            it.follows() == follow_subtrees,
            it.remaining() == postorder(forest@.trees, tree@, follow_subtrees),
    {
        let mut it = PostOrderIterator {
            forest: Some(forest),
            stack: Vec::new(),
            tree,
            pos: tree.get_root(),
            follow: follow_subtrees,
        };
        if it.pos != 0 {
            proof {
                assert(levels_of(it.stack@) =~= Seq::empty());
                let pf = post_from(
                    it.slots(),
                    tree@,
                    it.pos as int,
                    follow_subtrees,
                    forest@.trees.len(),
                );
                assert(post_after(
                    it.slots(),
                    levels_of(it.stack@),
                    tree@,
                    it.pos as int,
                    follow_subtrees,
                ) =~= Seq::empty());
                assert(pf + Seq::<Visit>::empty() =~= pf);
            }
            it.descend();
        }
        it
    }

    /// The position that the cursor stands on: the node that `next` yields
    /// next, or the null position once the walk is over.
    pub fn deref(&self) -> (pos: i64)
        requires
            self.wf(),
        ensures
            pos == if self.remaining().len() > 0 {
                self.remaining()[0].0
            } else {
                0
            },
    {
        self.pos
    }

    /// The payload of the node that the cursor stands on.
    pub fn get_data(&self) -> (r: Result<i32, TreeError>)
        requires
            self.wf(),
        ensures
            r == if self.remaining().len() > 0 {
                Ok::<i32, TreeError>(self.remaining()[0].1)
            } else {
                Err::<i32, TreeError>(TreeError::InvalidPosition)
            },
    {
        self.tree.get_data(self.pos)
    }

    /// Yields the node that the cursor stands on and moves on to the next,
    /// or yields nothing once the walk is over.
    pub fn next(&mut self) -> (r: Option<Visit>)
        requires
            old(self).wf(),
        ensures
            final(self).wf(),
            final(self).slots() == old(self).slots(),
            final(self).follows() == old(self).follows(),
            r == if old(self).remaining().len() > 0 {
                Some(old(self).remaining()[0])
            } else {
                None
            },
            final(self).remaining() == if old(self).remaining().len() > 0 {
                old(self).remaining().skip(1)
            } else {
                old(self).remaining()
            },
    {
        if self.pos == 0 {
            return None;
        }
        let ghost levels = levels_of(self.stack@);
        let ghost t = self.tree@;
        let ghost before = self.remaining();
        let here = self.pos;
        let n = self.tree.record(here);
        let out = (here, n.data);
        proof {
            assert(before.skip(1) =~= post_after(
                self.slots(),
                levels,
                t,
                here as int,
                self.follow,
            ));
        }
        if n.parent != 0 {
            proof {
                lemma_post_step_along(self.slots(), levels, t, here as int, self.follow);
            }
            if n.next_sibling != 0 {
                self.pos = n.next_sibling;
                self.descend();
            } else {
                self.pos = n.parent;
            }
        } else {
            proof {
                assert(here == t.root) by {
                    if here != t.root {
                        t.lemma_rank(here as int);
                    }
                }
                if levels.len() > 0 {
                    assert(levels.last() == Level {
                        tree: self.stack@.last().tree@,
                        pos: self.stack@.last().pos as int,
                    });
                }
                lemma_post_step_out(self.slots(), levels, t, self.follow);
            }
            match self.stack.pop() {
                None => {
                    self.pos = 0;
                },
                Some(frame) => {
                    proof {
                        assert(levels_of(self.stack@) =~= levels.drop_last());
                    }
                    self.tree = frame.tree;
                    self.pos = frame.pos;
                    let outer = self.tree.record(self.pos);
                    if outer.first_child != 0 {
                        proof {
                            self.tree@.lemma_rank_of_child(self.pos as int, 0);
                        }
                        self.pos = outer.first_child;
                        self.descend();
                    }
                },
            }
        }
        Some(out)
    }
}

impl<'a> PreOrderIterator<'a> {
    /// Walks to the end and returns everything that was still to come.
    pub fn rest(&mut self) -> (out: Vec<Visit>)
        requires
            old(self).wf(),
        ensures
            final(self).wf(),
            final(self).slots() == old(self).slots(),
            final(self).follows() == old(self).follows(),
            out@ == old(self).remaining(),
            final(self).remaining().len() == 0,
    {
        let mut out: Vec<Visit> = Vec::new();
        let mut more = true;
        while more
            invariant
                self.wf(),
                self.slots() == old(self).slots(),
                self.follows() == old(self).follows(),
                out@ + self.remaining() == old(self).remaining(),
                !more ==> self.remaining().len() == 0,
            decreases self.remaining().len() + if more { 1int } else { 0int },
        {
            let ghost before = self.remaining();
            match self.next() {
                Some(visit) => {
                    out.push(visit);
                    proof {
                        assert(before =~= seq![visit] + before.skip(1));
                        assert(out@ + self.remaining() =~= old(self).remaining());
                    }
                },
                None => {
                    more = false;
                },
            }
        }
        proof {
            assert(out@ + self.remaining() =~= out@);
        }
        out
    }
}

impl<'a> PostOrderIterator<'a> {
    /// Walks to the end and returns everything that was still to come.
    pub fn rest(&mut self) -> (out: Vec<Visit>)
        requires
            old(self).wf(),
        ensures
            final(self).wf(),
            final(self).slots() == old(self).slots(),
            final(self).follows() == old(self).follows(),
            out@ == old(self).remaining(),
            final(self).remaining().len() == 0,
    {
        let mut out: Vec<Visit> = Vec::new();
        let mut more = true;
        while more
            invariant
                self.wf(),
                self.slots() == old(self).slots(),
                self.follows() == old(self).follows(),
                out@ + self.remaining() == old(self).remaining(),
                !more ==> self.remaining().len() == 0,
            decreases self.remaining().len() + if more { 1int } else { 0int },
        {
            let ghost before = self.remaining();
            match self.next() {
                Some(visit) => {
                    out.push(visit);
                    proof {
                        assert(before =~= seq![visit] + before.skip(1));
                        assert(out@ + self.remaining() =~= old(self).remaining());
                    }
                },
                None => {
                    more = false;
                },
            }
        }
        proof {
            assert(out@ + self.remaining() =~= out@);
        }
        out
    }
}

} // verus!
