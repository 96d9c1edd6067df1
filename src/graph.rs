use vstd::prelude::*;

verus! {

/// Local transform parameters of a node.
#[derive(Clone, Copy)]
pub struct Pose<T> {
    /// Translation in the parent's frame, applied after the rotation.
    pub position: T,
    /// Euler angles about the local X, Y and Z axes.
    pub rotation: T,
    /// Pivot of the rotation, in the node's own local coordinates.
    pub reference_point: T,
    /// Per-axis scale; kept with the node, not composed into its transform.
    pub scale: T,
}

/// One node of the graph.
pub struct SceneNode<T, M> {
    pub pose: Pose<T>,
    /// World transform written by the last update.
    pub world: M,
    /// Handle of the geometry that the node draws, if any.
    pub drawable: Option<u32>,
    /// Number of indices to draw; a negative count marks a node that draws nothing.
    pub element_count: i32,
    /// Child nodes, in drawing order.
    pub children: Vec<usize>,
    /// The node's parent, or `None` for a root.
    pub parent: Option<usize>,
}

/// Why `add_child` refused to attach a node.
#[derive(Clone, Copy, Debug, PartialEq, Eq)]
pub enum GraphError {
    /// An index names no node of the graph.
    NoSuchNode,
    /// The child already has a parent.
    AlreadyAttached,
    /// The child is the parent itself or one of its ancestors.
    WouldCycle,
}

/// A forest of scene nodes addressed by stable indices.
pub struct SceneGraph<T, M> {
    nodes: Vec<SceneNode<T, M>>,
    /// Ranks that grow strictly from parent to child, all below `bound`.
    rank: Ghost<Seq<nat>>,
    bound: Ghost<nat>,
    /// For each node, the root of the tree that holds it.
    tree: Ghost<Seq<int>>,
}

impl<T, M> View for SceneGraph<T, M> {
    type V = Seq<SceneNode<T, M>>;

    closed spec fn view(&self) -> Seq<SceneNode<T, M>> {
        self.nodes@
    }
}

impl<T, M> SceneNode<T, M> {
    /// Whether the draw traversal issues a draw call for this node.
    pub open spec fn renders(&self) -> bool {
        self.drawable.is_some() && self.element_count >= 0
    }

    /// The two nodes agree on everything but their links.
    pub open spec fn same_content(&self, other: &SceneNode<T, M>) -> bool {
        &&& self.pose == other.pose
        &&& self.world == other.world
        &&& self.drawable == other.drawable
        &&& self.element_count == other.element_count
    }
}

impl<T, M> SceneGraph<T, M> {
    /// Ghost ranks of the nodes: a child always ranks above its parent.
    pub closed spec fn rank(&self) -> Seq<nat> {
        self.rank@
    }

    /// A strict upper bound of all ranks.
    pub closed spec fn bound(&self) -> nat {
        self.bound@
    }

    /// The root of the tree that holds node `i`.
    pub closed spec fn root_of(&self, i: int) -> int {
        self.tree@[i]
    }

    /// Length of the ghost table behind `root_of`.
    pub closed spec fn tree_len(&self) -> nat {
        self.tree@.len()
    }

    /// `i` is the index of a node.
    pub open spec fn has_node(&self, i: int) -> bool {
        0 <= i < self@.len()
    }

    /// The parent of node `i` exists, ranks below it, lies in its tree and
    /// lists it as a child; a node without parent is the root of its tree.
    pub open spec fn parent_edge_ok(&self, i: int) -> bool {
        match self@[i].parent {
            Some(p) => {
                &&& self.has_node(p as int)
                &&& self.rank()[p as int] < self.rank()[i]
                &&& self.root_of(p as int) == self.root_of(i)
                &&& self@[p as int].children@.contains(i as usize)
            },
            None => self.root_of(i) == i,
        }
    }

    /// Node `i` lists each child once, and each child names it as parent.
    pub open spec fn child_edges_ok(&self, i: int) -> bool {
        &&& self@[i].children@.no_duplicates()
        &&& forall|j: int|
            0 <= j < self@[i].children@.len() ==> {
                let c = #[trigger] self@[i].children@[j];
                &&& self.has_node(c as int)
                &&& self@[c as int].parent == Some(i as usize)
            }
    }

    /// The two graphs have the same nodes, links and transform parameters;
    /// they may differ in world transforms.
    pub open spec fn same_links(&self, other: &SceneGraph<T, M>) -> bool {
        &&& self@.len() == other@.len()
        &&& self.rank() == other.rank()
        &&& self.bound() == other.bound()
        &&& forall|k: int| self.has_node(k) ==> self.root_of(k) == other.root_of(k)
        &&& forall|k: int|
            self.has_node(k) ==> {
                &&& (#[trigger] self@[k]).pose == other@[k].pose
                &&& self@[k].drawable == other@[k].drawable
                &&& self@[k].element_count == other@[k].element_count
                &&& self@[k].children == other@[k].children
                &&& self@[k].parent == other@[k].parent
            }
    }

    /// Well-formedness: parent and child links agree, every node lies in the
    /// tree of one root, and ranks grow along every edge, so the graph is a
    /// finite forest without cycles.
    pub open spec fn wf(&self) -> bool {
        &&& self@.len() <= usize::MAX
        &&& self.rank().len() == self@.len()
        &&& self.tree_len() == self@.len()
        &&& forall|i: int| self.has_node(i) ==> #[trigger] self.rank()[i] < self.bound()
        &&& forall|i: int| self.has_node(i) ==> self.has_node(#[trigger] self.root_of(i))
        &&& forall|i: int| self.has_node(i) ==> #[trigger] self.parent_edge_ok(i)
        &&& forall|i: int| self.has_node(i) ==> #[trigger] self.child_edges_ok(i)
    }

    /// Creates an empty graph.
    pub fn new() -> (g: Self)
        ensures
            g.wf(),
            g@.len() == 0,
    {
        SceneGraph { nodes: Vec::new(), rank: Ghost(Seq::empty()), bound: Ghost(0), tree: Ghost(Seq::empty()) }
    }
}

impl<T: Copy, M: Copy> SceneGraph<T, M> {
    /// Adds a root node with the given transform parameters and initial world
    /// transform; with `drawable` it draws `element_count` indices of that
    /// geometry. Returns the new node's index.
    pub fn add_node(&mut self, pose: Pose<T>, world: M, drawable: Option<u32>, element_count: i32) -> (i: usize)
        requires
            old(self).wf(),
            old(self)@.len() < usize::MAX,
        ensures
            final(self).wf(),
            i == old(self)@.len(),
            final(self)@ == old(self)@.push(
                SceneNode { pose, world, drawable, element_count, children: final(self)@[i as int].children, parent: None },
            ),
            final(self)@[i as int].children@.len() == 0,
            forall|j: int| old(self).has_node(j) ==> final(self).root_of(j) == old(self).root_of(j),
            final(self).root_of(i as int) == i,
    {
        let i = self.nodes.len();
        let node = SceneNode { pose, world, drawable, element_count, children: Vec::new(), parent: None };
        self.nodes.push(node);
        self.rank = Ghost(self.rank@.push(0));
        self.bound = Ghost(self.bound@ + 1);
        self.tree = Ghost(self.tree@.push(i as int));
        proof {
            assert forall|k: int| self.has_node(k) implies #[trigger] self.rank()[k] < self.bound() by {
                if k < i {
                    assert(old(self).rank()[k] < old(self).bound());
                }
            }
            assert forall|k: int| self.has_node(k) implies self.has_node(#[trigger] self.root_of(k)) by {
                if k < i {
                    assert(old(self).has_node(old(self).root_of(k)));
                }
            }
            assert forall|k: int| self.has_node(k) implies #[trigger] self.child_edges_ok(k) by {
                if k < i {
                    assert(old(self).child_edges_ok(k));
                }
            }
            assert forall|k: int| self.has_node(k) implies #[trigger] self.parent_edge_ok(k) by {
                if k < i {
                    assert(old(self).parent_edge_ok(k));
                    if let Some(p) = self@[k].parent {
                        assert(self@[p as int] == old(self)@[p as int]);
                    }
                }
            }
        }
        i
    }

    /// The node at index `i`.
    pub fn node(&self, i: usize) -> (r: &SceneNode<T, M>)
        requires
            self.has_node(i as int),
        ensures
            *r == self@[i as int],
    {
        &self.nodes[i]
    }

    /// Number of nodes in the graph.
    pub fn len(&self) -> (r: usize)
        ensures
            r == self@.len(),
    {
        self.nodes.len()
    }

    /// Stores `m` as the world transform of node `i`.
    pub(crate) fn set_world(&mut self, i: usize, m: M)
        requires
            old(self).wf(),
            old(self).has_node(i as int),
        ensures
            final(self).wf(),
            final(self).same_links(old(self)),
            final(self)@ == old(self)@.update(i as int, SceneNode { world: m, ..old(self)@[i as int] }),
    {
        self.nodes[i].world = m;
        proof {
            assert forall|k: int| self.has_node(k) implies #[trigger] self.parent_edge_ok(k) by {
                assert(old(self).parent_edge_ok(k));
                if let Some(p) = self@[k].parent {
                    assert(self@[p as int].children == old(self)@[p as int].children);
                }
            }
            assert forall|k: int| self.has_node(k) implies #[trigger] self.child_edges_ok(k) by {
                assert(old(self).child_edges_ok(k));
                assert(self@[k].children == old(self)@[k].children);
                assert forall|j: int| 0 <= j < self@[k].children@.len() implies {
                    let c = #[trigger] self@[k].children@[j];
                    &&& self.has_node(c as int)
                    &&& self@[c as int].parent == Some(k as usize)
                } by {
                    let c = self@[k].children@[j];
                    assert(self@[c as int].parent == old(self)@[c as int].parent);
                }
            }
            assert(self.rank() == old(self).rank());
            assert(self.tree_len() == self@.len());
            assert(forall|k: int| self.has_node(k) ==> #[trigger] self.rank()[k] < self.bound());
            assert forall|k: int| self.has_node(k) implies self.has_node(#[trigger] self.root_of(k)) by {
                assert(old(self).has_node(old(self).root_of(k)));
            }
        }
    }

    /// Replaces the transform parameters of node `i`; no other field changes.
    pub fn set_pose(&mut self, i: usize, pose: Pose<T>)
        requires
            old(self).wf(),
            old(self).has_node(i as int),
        ensures
            final(self).wf(),
            final(self)@ == old(self)@.update(i as int, SceneNode { pose, ..old(self)@[i as int] }),
    {
        self.nodes[i].pose = pose;
        proof {
            assert forall|k: int| self.has_node(k) implies #[trigger] self.parent_edge_ok(k) by {
                assert(old(self).parent_edge_ok(k));
                if let Some(p) = self@[k].parent {
                    assert(self@[p as int].children == old(self)@[p as int].children);
                }
            }
            assert forall|k: int| self.has_node(k) implies #[trigger] self.child_edges_ok(k) by {
                assert(old(self).child_edges_ok(k));
                assert(self@[k].children == old(self)@[k].children);
                assert forall|j: int| 0 <= j < self@[k].children@.len() implies {
                    let c = #[trigger] self@[k].children@[j];
                    &&& self.has_node(c as int)
                    &&& self@[c as int].parent == Some(k as usize)
                } by {
                    let c = self@[k].children@[j];
                    assert(self@[c as int].parent == old(self)@[c as int].parent);
                }
            }
            assert(self.rank() == old(self).rank());
            assert(self.tree_len() == self@.len());
            assert(forall|k: int| self.has_node(k) ==> #[trigger] self.rank()[k] < self.bound());
            assert forall|k: int| self.has_node(k) implies self.has_node(#[trigger] self.root_of(k)) by {
                assert(old(self).has_node(old(self).root_of(k)));
            }
        }
    }

    /// Walks up from `i` to the root of its tree.
    fn find_root(&self, i: usize) -> (r: usize)
        requires
            self.wf(),
            self.has_node(i as int),
        ensures
            r as int == self.root_of(i as int),
    {
        let mut cur = i;
        loop
            invariant
                self.wf(),
                self.has_node(cur as int),
                self.root_of(cur as int) == self.root_of(i as int),
            ensures
                cur as int == self.root_of(i as int),
            decreases self.rank()[cur as int],
        {
            proof {
                assert(self.parent_edge_ok(cur as int));
            }
            match self.nodes[cur].parent {
                Some(q) => {
                    cur = q;
                },
                None => {
                    break ;
                },
            }
        }
        cur
    }

    /// Appends `child` to the children of `parent`.
    ///
    /// Fails, leaving the graph as it was, when an index names no node, when
    /// `child` already has a parent, or when `child` is `parent` or one of its
    /// ancestors.
    pub fn add_child(&mut self, parent: usize, child: usize) -> (r: Result<(), GraphError>)
        requires
            old(self).wf(),
        ensures
            final(self).wf(),
            !old(self).has_node(parent as int) || !old(self).has_node(child as int) ==> r == Err::<(), GraphError>(
                GraphError::NoSuchNode,
            ),
            old(self).has_node(parent as int) && old(self).has_node(child as int) ==> {
                if old(self)@[child as int].parent.is_some() {
                    r == Err::<(), GraphError>(GraphError::AlreadyAttached)
                } else if old(self).root_of(parent as int) == child {
                    r == Err::<(), GraphError>(GraphError::WouldCycle)
                } else {
                    r is Ok
                }
            },
            r is Err ==> final(self)@ == old(self)@,
            r is Ok ==> {
                &&& final(self)@.len() == old(self)@.len()
                &&& forall|k: int|
                    old(self).has_node(k) && k != parent && k != child ==> final(self)@[k] == old(self)@[k]
                &&& final(self)@[parent as int].same_content(&old(self)@[parent as int])
                &&& final(self)@[parent as int].parent == old(self)@[parent as int].parent
                &&& final(self)@[parent as int].children@ == old(self)@[parent as int].children@.push(child)
                &&& final(self)@[child as int].same_content(&old(self)@[child as int])
                &&& final(self)@[child as int].children@ == old(self)@[child as int].children@
                &&& final(self)@[child as int].parent == Some(parent)
                &&& forall|k: int|
                    old(self).has_node(k) ==> final(self).root_of(k) == if old(self).root_of(k) == child as int {
                        old(self).root_of(parent as int)
                    } else {
                        old(self).root_of(k)
                    }
            },
    {
        if parent >= self.nodes.len() || child >= self.nodes.len() {
            return Err(GraphError::NoSuchNode);
        }
        if self.nodes[child].parent.is_some() {
            return Err(GraphError::AlreadyAttached);
        }
        let top = self.find_root(parent);
        if top == child {
            return Err(GraphError::WouldCycle);
        }
        let ghost old_g = *self;
        proof {
            assert(old_g.parent_edge_ok(child as int));
            assert(old_g.rank()[parent as int] < old_g.bound());
        }
        self.nodes[parent].children.push(child);
        self.nodes[child].parent = Some(parent);
        let ghost shift = old_g.rank()[parent as int] + 1;
        let ghost new_root = old_g.root_of(parent as int);
        self.rank = Ghost(
            Seq::new(
                old_g@.len(),
                |k: int|
                    if old_g.root_of(k) == child {
                        (old_g.rank()[k] + shift) as nat
                    } else {
                        old_g.rank()[k]
                    },
            ),
        );
        self.bound = Ghost(old_g.bound() * 2);
        self.tree = Ghost(
            Seq::new(old_g@.len(), |k: int| if old_g.root_of(k) == child { new_root } else { old_g.root_of(k) }),
        );
        proof {
            assert forall|k: int| self.has_node(k) implies #[trigger] self.rank()[k] < self.bound() by {
                assert(old_g.rank()[k] < old_g.bound());
            }
            assert forall|k: int| self.has_node(k) implies self.has_node(#[trigger] self.root_of(k)) by {
                assert(old_g.has_node(old_g.root_of(k)));
            }
            assert forall|k: int| self.has_node(k) implies #[trigger] self.parent_edge_ok(k) by {
                assert(old_g.parent_edge_ok(k));
                if k != child as int {
                    if let Some(q) = self@[k].parent {
                        assert(old_g.parent_edge_ok(q as int));
                        if q == parent {
                            assert(old_g@[q as int].children@.contains(k as usize));
                            let j = choose|j: int|
                                0 <= j < old_g@[q as int].children@.len() && old_g@[q as int].children@[j] == k as usize;
                            assert(self@[q as int].children@[j] == k as usize);
                        }
                    }
                } else {
                    assert(self@[parent as int].children@.last() == child);
                }
            }
            assert forall|k: int| self.has_node(k) implies #[trigger] self.child_edges_ok(k) by {
                assert(old_g.child_edges_ok(k));
                if k == parent as int {
                    assert(!old_g@[k].children@.contains(child)) by {
                        if old_g@[k].children@.contains(child) {
                            let j = choose|j: int|
                                0 <= j < old_g@[k].children@.len() && old_g@[k].children@[j] == child;
                            assert(old_g@[old_g@[k].children@[j] as int].parent == Some(k as usize));
                        }
                    }
                    assert forall|j: int| 0 <= j < self@[k].children@.len() implies {
                        let c = #[trigger] self@[k].children@[j];
                        &&& self.has_node(c as int)
                        &&& self@[c as int].parent == Some(k as usize)
                    } by {
                        if j < old_g@[k].children@.len() {
                            assert(self@[k].children@[j] == old_g@[k].children@[j]);
                        }
                    }
                } else {
                    assert forall|j: int| 0 <= j < self@[k].children@.len() implies {
                        let c = #[trigger] self@[k].children@[j];
                        &&& self.has_node(c as int)
                        &&& self@[c as int].parent == Some(k as usize)
                    } by {
                        assert(self@[k].children@[j] == old_g@[k].children@[j]);
                        let c = old_g@[k].children@[j];
                        assert(old_g@[c as int].parent == Some(k as usize));
                    }
                }
            }
        }
        Ok(())
    }

    /// Creates a grouping node: no geometry, and a negative element count.
    pub fn create_empty(&mut self, pose: Pose<T>, world: M) -> (i: usize)
        requires
            old(self).wf(),
            old(self)@.len() < usize::MAX,
        ensures
            final(self).wf(),
            i == old(self)@.len(),
            final(self)@ == old(self)@.push(
                SceneNode { pose, world, drawable: None, element_count: -1i32, children: final(self)@[i as int].children, parent: None },
            ),
            final(self)@[i as int].children@.len() == 0,
            forall|j: int| old(self).has_node(j) ==> final(self).root_of(j) == old(self).root_of(j),
            final(self).root_of(i as int) == i,
    {
        self.add_node(pose, world, None, -1)
    }

    /// Creates a node that draws `element_count` indices of the geometry `handle`.
    pub fn create_with_geometry(&mut self, pose: Pose<T>, world: M, handle: u32, element_count: i32) -> (i: usize)
        requires
            old(self).wf(),
            old(self)@.len() < usize::MAX,
        ensures
            final(self).wf(),
            i == old(self)@.len(),
            final(self)@ == old(self)@.push(
                SceneNode { pose, world, drawable: Some(handle), element_count, children: final(self)@[i as int].children, parent: None },
            ),
            final(self)@[i as int].children@.len() == 0,
            forall|j: int| old(self).has_node(j) ==> final(self).root_of(j) == old(self).root_of(j),
            final(self).root_of(i as int) == i,
    {
        self.add_node(pose, world, Some(handle), element_count)
    }
}

} // verus!
