use vstd::prelude::*;
use crate::graph::{Pose, SceneGraph};

verus! {

impl<T, M> SceneGraph<T, M> {
    /// Whether `y` lies in the subtree rooted at `x` (`x` itself included).
    pub open spec fn in_subtree(&self, x: int, y: int) -> bool
        decreases self.rank()[y],
    {
        y == x || match self@[y].parent {
            Some(q) => self.rank()[q as int] < self.rank()[y] && self.in_subtree(x, q as int),
            None => false,
        }
    }

    /// Whether `y` lies in the subtree of one of the first `k` children of `x`.
    pub open spec fn in_first_children(&self, x: int, k: int, y: int) -> bool
        decreases k,
    {
        if k <= 0 || k > self@[x].children@.len() {
            false
        } else {
            self.in_subtree(self@[x].children@[k - 1] as int, y) || self.in_first_children(x, k - 1, y)
        }
    }

    /// The world transform of `y` is `apply` of its parent's world transform
    /// (of `parent_world` for `root`) and its own transform parameters.
    pub open spec fn world_follows<F: Fn(&M, &Pose<T>) -> M>(
        &self,
        root: int,
        y: int,
        parent_world: M,
        apply: F,
    ) -> bool {
        let pw = if y == root {
            parent_world
        } else {
            self@[self@[y].parent.unwrap() as int].world
        };
        apply.ensures((&pw, &self@[y].pose), self@[y].world)
    }

    /// `self` is `before` after an update of the subtree of `root` from
    /// `parent_world`: links and transform parameters are unchanged, each
    /// node of the subtree follows its parent by `apply`, and every other node
    /// keeps its world transform.
    pub open spec fn updated_from<F: Fn(&M, &Pose<T>) -> M>(
        &self,
        before: &SceneGraph<T, M>,
        root: int,
        parent_world: M,
        apply: F,
    ) -> bool {
        &&& self.wf()
        &&& self.same_links(before)
        &&& forall|y: int|
            before.has_node(y) && #[trigger] before.in_subtree(root, y) ==> self.world_follows(
                root,
                y,
                parent_world,
                apply,
            )
        &&& forall|y: int|
            before.has_node(y) && !#[trigger] before.in_subtree(root, y) ==> self@[y].world == before@[y].world
    }

    /// Nodes below `x` rank at least as high as `x`.
    pub proof fn lemma_subtree_rank(&self, x: int, y: int)
        requires
            self.in_subtree(x, y),
        ensures
            self.rank()[x] <= self.rank()[y],
        decreases self.rank()[y],
    {
        if y != x {
            let q = self@[y].parent.unwrap() as int;
            self.lemma_subtree_rank(x, q);
        }
    }

    /// Graphs with the same links have the same subtrees.
    pub proof fn lemma_same_links_subtree(&self, other: &SceneGraph<T, M>, x: int, y: int)
        requires
            self.wf(),
            self.same_links(other),
            self.has_node(y),
        ensures
            self.in_subtree(x, y) == other.in_subtree(x, y),
        decreases self.rank()[y],
    {
        assert(self@[y].parent == other@[y].parent);
        if y != x {
            assert(self.parent_edge_ok(y));
            if let Some(q) = self@[y].parent {
                self.lemma_same_links_subtree(other, x, q as int);
            }
        }
    }

    /// A node in the subtree of a child of `x` is in the subtree of `x`, and is not `x`.
    pub proof fn lemma_child_subtree(&self, x: int, c: int, y: int)
        requires
            self.wf(),
            self.has_node(x),
            self.has_node(c),
            self@[c].parent == Some(x as usize),
            self.in_subtree(c, y),
        ensures
            self.in_subtree(x, y),
            y != x,
        decreases self.rank()[y],
    {
        assert(self.parent_edge_ok(c));
        self.lemma_subtree_rank(c, y);
        assert(self.in_subtree(x, x));
        if y != c {
            let q = self@[y].parent.unwrap() as int;
            self.lemma_child_subtree(x, c, q);
        }
    }

    /// Subtrees of two distinct children of one node share no node.
    pub proof fn lemma_siblings_disjoint(&self, x: int, c1: int, c2: int, y: int)
        requires
            self.wf(),
            self.has_node(x),
            self.has_node(c1),
            self.has_node(c2),
            self.has_node(y),
            c1 != c2,
            self@[c1].parent == Some(x as usize),
            self@[c2].parent == Some(x as usize),
        ensures
            !(self.in_subtree(c1, y) && self.in_subtree(c2, y)),
        decreases self.rank()[y],
    {
        assert(self.parent_edge_ok(c1));
        assert(self.parent_edge_ok(c2));
        assert(self.parent_edge_ok(y));
        if self.in_subtree(c1, y) && self.in_subtree(c2, y) {
            if y == c1 {
                assert(self.in_subtree(c2, x));
                self.lemma_subtree_rank(c2, x);
            } else if y == c2 {
                assert(self.in_subtree(c1, x));
                self.lemma_subtree_rank(c1, x);
            } else {
                let q = self@[y].parent.unwrap() as int;
                self.lemma_siblings_disjoint(x, c1, c2, q);
            }
        }
    }

    /// A node below one of the first `k` children of `x` lies below `x`.
    pub proof fn lemma_first_children_subtree(&self, x: int, k: int, y: int)
        requires
            self.wf(),
            self.has_node(x),
            self.in_first_children(x, k, y),
        ensures
            self.in_subtree(x, y),
            y != x,
        decreases k,
    {
        assert(self.child_edges_ok(x));
        let c = self@[x].children@[k - 1] as int;
        if self.in_subtree(c, y) {
            self.lemma_child_subtree(x, c, y);
        } else {
            self.lemma_first_children_subtree(x, k - 1, y);
        }
    }

    /// A node below child `j` of `x` lies below one of its first `k` children, for `j < k`.
    pub proof fn lemma_first_children_mono(&self, x: int, j: int, k: int, y: int)
        requires
            0 <= j < k <= self@[x].children@.len(),
            self.in_subtree(self@[x].children@[j] as int, y),
        ensures
            self.in_first_children(x, k, y),
        decreases k,
    {
        if j < k - 1 {
            self.lemma_first_children_mono(x, j, k - 1, y);
        }
    }

    /// The first `k` children's subtrees share no node with the subtree of child `k`.
    pub proof fn lemma_first_children_disjoint(&self, x: int, k: int, y: int)
        requires
            self.wf(),
            self.has_node(x),
            self.has_node(y),
            0 <= k < self@[x].children@.len(),
            self.in_subtree(self@[x].children@[k] as int, y),
        ensures
            !self.in_first_children(x, k, y),
        decreases k,
    {
        assert(self.child_edges_ok(x));
        if k > 0 {
            let c1 = self@[x].children@[k - 1] as int;
            let c2 = self@[x].children@[k] as int;
            assert(self@[x].children@.no_duplicates());
            assert(c1 != c2);
            self.lemma_siblings_disjoint(x, c1, c2, y);
            self.lemma_first_children_disjoint_at(x, k - 1, k, y);
        }
    }

    /// A node below child `k` of `x` lies below none of its first `j + 1` children, for `j < k`.
    proof fn lemma_first_children_disjoint_at(&self, x: int, j: int, k: int, y: int)
        requires
            self.wf(),
            self.has_node(x),
            self.has_node(y),
            0 <= j < k < self@[x].children@.len(),
            self.in_subtree(self@[x].children@[k] as int, y),
        ensures
            !self.in_first_children(x, j + 1, y),
        decreases j,
    {
        assert(self.child_edges_ok(x));
        let c1 = self@[x].children@[j] as int;
        let c2 = self@[x].children@[k] as int;
        assert(c1 != c2);
        self.lemma_siblings_disjoint(x, c1, c2, y);
        if j > 0 {
            self.lemma_first_children_disjoint_at(x, j - 1, k, y);
        } else {
            assert(!self.in_first_children(x, 0, y));
        }
    }

    /// Every node below `x` lies in the subtree of one of its children.
    pub proof fn lemma_subtree_in_children(&self, x: int, y: int)
        requires
            self.wf(),
            self.has_node(x),
            self.has_node(y),
            self.in_subtree(x, y),
            y != x,
        ensures
            self.in_first_children(x, self@[x].children@.len() as int, y),
        decreases self.rank()[y],
    {
        assert(self.parent_edge_ok(y));
        let q = self@[y].parent.unwrap() as int;
        let n = self@[x].children@.len() as int;
        if q == x {
            assert(self@[x].children@.contains(y as usize));
            let j = choose|j: int| 0 <= j < n && self@[x].children@[j] == y as usize;
            self.lemma_first_children_mono(x, j, n, y);
        } else {
            self.lemma_subtree_in_children(x, q);
            self.lemma_first_children_step(x, n, q, y);
        }
    }

    /// The parent of a node below the first `k` children, other than those
    /// children themselves, lies below them too.
    proof fn lemma_parent_in_first_children(&self, x: int, k: int, y: int)
        requires
            self.wf(),
            self.has_node(x),
            self.has_node(y),
            self.in_first_children(x, k, y),
            self@[y].parent != Some(x as usize),
        ensures
            self.in_first_children(x, k, self@[y].parent.unwrap() as int),
        decreases k,
    {
        assert(self.child_edges_ok(x));
        let c = self@[x].children@[k - 1] as int;
        if self.in_subtree(c, y) {
            assert(y != c);
        } else {
            self.lemma_parent_in_first_children(x, k - 1, y);
        }
    }

    /// A child of a node below the first `k` children of `x` lies below them too.
    proof fn lemma_first_children_step(&self, x: int, k: int, q: int, y: int)
        requires
            self.wf(),
            self.has_node(y),
            self.has_node(q),
            self@[y].parent == Some(q as usize),
            self.in_first_children(x, k, q),
        ensures
            self.in_first_children(x, k, y),
        decreases k,
    {
        assert(self.parent_edge_ok(y));
        let c = self@[x].children@[k - 1] as int;
        if !self.in_subtree(c, q) {
            self.lemma_first_children_step(x, k - 1, q, y);
        }
    }
}

impl<T: Copy, M: Copy> SceneGraph<T, M> {
    /// Recomputes the world transforms of the subtree rooted at `root`, parent
    /// before children and children in list order: each node gets
    /// `apply(parent's world transform, its own transform parameters)`, the root
    /// taking `parent_world` as its parent's. Other nodes, links and transform
    /// parameters are left as they were.
    pub fn update_transforms<F: Fn(&M, &Pose<T>) -> M>(&mut self, root: usize, parent_world: &M, apply: &F)
        requires
            old(self).wf(),
            old(self).has_node(root as int),
            forall|a: &M, p: &Pose<T>| apply.requires((a, p)),
        ensures
            final(self).updated_from(old(self), root as int, *parent_world, *apply),
        decreases old(self).bound() - old(self).rank()[root as int],
    {
        let w = apply(parent_world, &self.node(root).pose);
        self.set_world(root, w);
        let ghost g0 = *self;
        let n = self.node(root).children.len();
        let mut j: usize = 0;
        while j < n
            invariant
                self.wf(),
                g0.wf(),
                self.same_links(&g0),
                g0.same_links(old(self)),
                g0@ == old(self)@.update(root as int, g0@[root as int]),
                g0@[root as int].world == w,
                self.has_node(root as int),
                forall|a: &M, p: &Pose<T>| apply.requires((a, p)),
                apply.ensures((parent_world, &g0@[root as int].pose), w),
                n == g0@[root as int].children@.len(),
                j <= n,
                self@[root as int].world == w,
                forall|y: int|
                    g0.has_node(y) && #[trigger] g0.in_first_children(root as int, j as int, y)
                        ==> self.world_follows(root as int, y, *parent_world, *apply),
                forall|y: int|
                    g0.has_node(y) && !#[trigger] g0.in_first_children(root as int, j as int, y) ==> self@[y].world
                        == g0@[y].world,
            decreases n - j,
        {
            let c = self.node(root).children[j];
            let ghost g1 = *self;
            proof {
                assert(g0.child_edges_ok(root as int));
                assert(g0@[root as int].children@[j as int] == c);
                assert(g0.parent_edge_ok(c as int));
                assert(g0.rank()[c as int] < g0.bound());
            }
            self.update_transforms(c, &w, apply);
            proof {
                let jj = j as int;
                let r = root as int;
                if g0.in_subtree(c as int, r) {
                    g0.lemma_subtree_rank(c as int, r);
                }
                g1.lemma_same_links_subtree(&g0, c as int, r);
                assert(!g1.in_subtree(c as int, r));
                assert forall|y: int| g0.has_node(y) implies (#[trigger] g0.in_first_children(r, jj + 1, y)
                    ==> self.world_follows(r, y, *parent_world, *apply)) && (!g0.in_first_children(r, jj + 1, y)
                    ==> self@[y].world == g0@[y].world) by {
                    g1.lemma_same_links_subtree(&g0, c as int, y);
                    assert(g0.parent_edge_ok(y));
                    if g0.in_subtree(c as int, y) {
                        g0.lemma_child_subtree(r, c as int, y);
                        assert(self.world_follows(c as int, y, w, *apply));
                        if g0.in_subtree(c as int, r) {
                            g0.lemma_subtree_rank(c as int, r);
                        }
                        g1.lemma_same_links_subtree(&g0, c as int, r);
                        assert(self@[r].world == w);
                    } else if g0.in_first_children(r, jj, y) {
                        assert(g1.world_follows(r, y, *parent_world, *apply));
                        assert(self@[y].world == g1@[y].world);
                        if y != r {
                            g0.lemma_first_children_subtree(r, jj, y);
                            let q = g0@[y].parent.unwrap() as int;
                            if q != r {
                                assert(g0.in_subtree(r, y));
                                g0.lemma_parent_in_first_children(r, jj, y);
                                if g0.in_subtree(c as int, q) {
                                    g0.lemma_first_children_disjoint(r, jj, q);
                                }
                                g1.lemma_same_links_subtree(&g0, c as int, q);
                            }
                            if g0.in_subtree(c as int, r) {
                                g0.lemma_subtree_rank(c as int, r);
                            }
                            g1.lemma_same_links_subtree(&g0, c as int, r);
                        }
                    } else {
                        assert(self@[y].world == g1@[y].world);
                    }
                }
            }
            j += 1;
        }
        proof {
            let r = root as int;
            assert forall|y: int| old(self).has_node(y) && #[trigger] old(self).in_subtree(r, y) implies self.world_follows(
                r,
                y,
                *parent_world,
                *apply,
            ) by {
                old(self).lemma_same_links_subtree(&g0, r, y);
                if y != r {
                    g0.lemma_subtree_in_children(r, y);
                }
            }
            assert forall|y: int| old(self).has_node(y) && !#[trigger] old(self).in_subtree(r, y) implies self@[y].world
                == old(self)@[y].world by {
                old(self).lemma_same_links_subtree(&g0, r, y);
                if g0.in_first_children(r, n as int, y) {
                    g0.lemma_first_children_subtree(r, n as int, y);
                }
            }
        }
    }
}

} // verus!
