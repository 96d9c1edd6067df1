use vstd::prelude::*;
use crate::graph::SceneGraph;

verus! {

/// One draw call: bind `handle`, upload `mvp` and `model`, draw `element_count` indices.
pub struct DrawCall<M> {
    pub node: usize,
    pub handle: u32,
    pub element_count: i32,
    /// View-projection transform times the node's world transform.
    pub mvp: M,
    /// The node's world transform alone.
    pub model: M,
}

impl<T, M> SceneGraph<T, M> {
    /// The nodes of the subtree rooted at `x`, parent before children and
    /// children in list order.
    pub open spec fn preorder(&self, x: int) -> Seq<usize>
        decreases self.bound() - self.rank()[x], self@[x].children@.len() + 1,
    {
        seq![x as usize] + self.preorder_children(x, self@[x].children@.len() as int)
    }

    /// The subtrees of the first `k` children of `x`, one after another.
    pub open spec fn preorder_children(&self, x: int, k: int) -> Seq<usize>
        decreases self.bound() - self.rank()[x], k,
    {
        if k <= 0 || k > self@[x].children@.len() {
            Seq::empty()
        } else {
            let c = self@[x].children@[k - 1] as int;
            if self.rank()[x] < self.rank()[c] && self.rank()[c] < self.bound() {
                self.preorder_children(x, k - 1) + self.preorder(c)
            } else {
                self.preorder_children(x, k - 1)
            }
        }
    }

    /// The nodes of the subtree rooted at `x` that draw, in pre-order.
    pub open spec fn draw_order(&self, x: int) -> Seq<usize> {
        self.preorder(x).filter(|i: usize| self@[i as int].renders())
    }
}

impl<M> DrawCall<M> {
    /// The call draws `node` of `g` with the view-projection transform `vp`,
    /// where `compose` multiplies two transforms.
    pub open spec fn draws<T, F: Fn(&M, &M) -> M>(&self, g: &SceneGraph<T, M>, node: usize, vp: M, compose: F) -> bool {
        &&& self.node == node
        &&& g@[node as int].drawable == Some(self.handle)
        &&& self.element_count == g@[node as int].element_count
        &&& self.model == g@[node as int].world
        &&& compose.ensures((&vp, &g@[node as int].world), self.mvp)
    }
}

impl<T: Copy, M: Copy> SceneGraph<T, M> {
    /// Appends the pre-order list of the subtree rooted at `x` to `out`.
    fn collect_preorder(&self, x: usize, out: &mut Vec<usize>)
        requires
            self.wf(),
            self.has_node(x as int),
        ensures
            final(out)@ == old(out)@ + self.preorder(x as int),
        decreases self.bound() - self.rank()[x as int],
    {
        out.push(x);
        let n = self.node(x).children.len();
        let mut j: usize = 0;
        while j < n
            invariant
                self.wf(),
                self.has_node(x as int),
                n == self@[x as int].children@.len(),
                j <= n,
                out@ == old(out)@ + seq![x] + self.preorder_children(x as int, j as int),
            decreases n - j,
        {
            let c = self.node(x).children[j];
            proof {
                assert(self.child_edges_ok(x as int));
                assert(self.parent_edge_ok(c as int));
                assert(self.rank()[c as int] < self.bound());
            }
            self.collect_preorder(c, out);
            j += 1;
            proof {
                assert(self.preorder_children(x as int, j as int) == self.preorder_children(x as int, j - 1)
                    + self.preorder(c as int));
            }
        }
    }

    /// Lists the subtree rooted at `root` in pre-order: each node before its
    /// children, children in list order.
    pub fn visit_order(&self, root: usize) -> (r: Vec<usize>)
        requires
            self.wf(),
            self.has_node(root as int),
        ensures
            r@ == self.preorder(root as int),
    {
        let mut out: Vec<usize> = Vec::new();
        self.collect_preorder(root, &mut out);
        proof {
            assert(out@ =~= self.preorder(root as int));
        }
        out
    }

    /// The draw calls of the subtree rooted at `root`: one for each node that
    /// has geometry and a non-negative element count, in pre-order. A node
    /// that draws nothing still has its children drawn. Each call carries
    /// `compose(view_projection, world)` and the node's world transform.
    pub fn draw_scene<F: Fn(&M, &M) -> M>(&self, root: usize, view_projection: &M, compose: &F) -> (calls: Vec<DrawCall<M>>)
        requires
            self.wf(),
            self.has_node(root as int),
            forall|a: &M, b: &M| compose.requires((a, b)),
        ensures
            calls@.len() == self.draw_order(root as int).len(),
            forall|i: int|
                0 <= i < calls@.len() ==> (#[trigger] calls@[i]).draws(
                    self,
                    self.draw_order(root as int)[i],
                    *view_projection,
                    *compose,
                ),
    {
        let order = self.visit_order(root);
        let ghost pred = |i: usize| self@[i as int].renders();
        let mut calls: Vec<DrawCall<M>> = Vec::new();
        let mut k: usize = 0;
        while k < order.len()
            invariant
                self.wf(),
                self.has_node(root as int),
                forall|a: &M, b: &M| compose.requires((a, b)),
                order@ == self.preorder(root as int),
                k <= order@.len(),
                pred == (|i: usize| self@[i as int].renders()),
                calls@.len() == order@.take(k as int).filter(pred).len(),
                forall|i: int|
                    0 <= i < calls@.len() ==> (#[trigger] calls@[i]).draws(
                        self,
                        order@.take(k as int).filter(pred)[i],
                        *view_projection,
                        *compose,
                    ),
            decreases order@.len() - k,
        {
            let x = order[k];
            proof {
                assert(order@.take(k + 1) =~= order@.take(k as int).push(x));
                order@.take(k as int).lemma_filter_push(x, pred);
                assert(self.has_node(x as int)) by {
                    self.lemma_preorder_nodes(root as int);
                }
            }
            let node = self.node(x);
            match node.drawable {
                Some(handle) => {
                    if node.element_count >= 0 {
                        let mvp = compose(view_projection, &node.world);
                        calls.push(DrawCall { node: x, handle, element_count: node.element_count, mvp, model: node.world });
                    }
                },
                None => {},
            }
            k += 1;
        }
        proof {
            assert(order@.take(order@.len() as int) =~= order@);
        }
        calls
    }
}

impl<T, M> SceneGraph<T, M> {
    /// Every index in a pre-order list names a node.
    pub proof fn lemma_preorder_nodes(&self, x: int)
        requires
            self.wf(),
            self.has_node(x),
        ensures
            forall|i: int| 0 <= i < self.preorder(x).len() ==> self.has_node(#[trigger] self.preorder(x)[i] as int),
        decreases self.bound() - self.rank()[x], self@[x].children@.len() + 1,
    {
        let k = self@[x].children@.len() as int;
        self.lemma_preorder_children_nodes(x, k);
        let a = self.preorder_children(x, k);
        assert forall|i: int| 0 <= i < self.preorder(x).len() implies self.has_node(
            #[trigger] self.preorder(x)[i] as int,
        ) by {
            if i > 0 {
                assert(self.preorder(x)[i] == a[i - 1]);
            }
        }
    }

    /// Every index in the pre-order lists of the first `k` children of `x` names a node.
    pub proof fn lemma_preorder_children_nodes(&self, x: int, k: int)
        requires
            self.wf(),
            self.has_node(x),
        ensures
            forall|i: int|
                0 <= i < self.preorder_children(x, k).len() ==> self.has_node(
                    #[trigger] self.preorder_children(x, k)[i] as int,
                ),
        decreases self.bound() - self.rank()[x], k,
    {
        if 0 < k <= self@[x].children@.len() {
            let c = self@[x].children@[k - 1] as int;
            assert(self.child_edges_ok(x));
            assert(self.parent_edge_ok(c));
            assert(self@[c].parent == Some(x as usize));
            assert(self.rank()[x] < self.rank()[c]);
            assert(self.rank()[c] < self.bound());
            self.lemma_preorder_children_nodes(x, k - 1);
            self.lemma_preorder_nodes(c);
            let a = self.preorder_children(x, k - 1);
            let b = self.preorder(c);
            assert forall|i: int| 0 <= i < (a + b).len() implies self.has_node(#[trigger] (a + b)[i] as int) by {
                if i >= a.len() {
                    assert((a + b)[i] == b[i - a.len()]);
                }
            }
        }
    }
}

} // verus!
