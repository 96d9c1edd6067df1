use vstd::prelude::*;
use crate::graph::{Pose, SceneGraph};

verus! {

/// Geometry of one mesh part: its handle and the number of indices to draw.
#[derive(Clone, Copy, Debug, PartialEq, Eq)]
pub struct Geometry {
    pub handle: u32,
    pub element_count: i32,
}

/// The four drawable parts of a helicopter.
#[derive(Clone, Copy, Debug, PartialEq, Eq)]
pub struct HelicopterParts {
    pub body: Geometry,
    pub door: Geometry,
    pub main_rotor: Geometry,
    pub tail_rotor: Geometry,
}

/// The nodes of one helicopter: a grouping root over the body, which holds
/// the main rotor, the tail rotor and the door.
#[derive(Clone, Copy, Debug, PartialEq, Eq)]
pub struct Helicopter {
    pub id: u32,
    pub root: usize,
    pub body: usize,
    pub door: usize,
    pub main_rotor: usize,
    pub tail_rotor: usize,
}

impl<T, M> SceneGraph<T, M> {
    /// Node `i` exists and has these contents, parent and children.
    pub open spec fn node_is(
        &self,
        i: int,
        pose: Pose<T>,
        world: M,
        drawable: Option<u32>,
        element_count: i32,
        parent: Option<usize>,
        children: Seq<usize>,
    ) -> bool {
        &&& self.has_node(i)
        &&& self@[i].pose == pose
        &&& self@[i].world == world
        &&& self@[i].drawable == drawable
        &&& self@[i].element_count == element_count
        &&& self@[i].parent == parent
        &&& self@[i].children@ == children
    }

    /// The graph holds helicopter `h` as it was assembled: every part with
    /// pose `rest` but the tail rotor, which has `tail_rotor_pose`.
    pub open spec fn holds_helicopter(
        &self,
        h: Helicopter,
        parts: HelicopterParts,
        rest: Pose<T>,
        tail_rotor_pose: Pose<T>,
        world: M,
    ) -> bool {
        &&& self.node_is(h.root as int, rest, world, None, -1i32, None, seq![h.body])
        &&& self.node_is(
            h.body as int,
            rest,
            world,
            Some(parts.body.handle),
            parts.body.element_count,
            Some(h.root),
            seq![h.main_rotor, h.tail_rotor, h.door],
        )
        &&& self.node_is(
            h.main_rotor as int,
            rest,
            world,
            Some(parts.main_rotor.handle),
            parts.main_rotor.element_count,
            Some(h.body),
            seq![],
        )
        &&& self.node_is(
            h.tail_rotor as int,
            tail_rotor_pose,
            world,
            Some(parts.tail_rotor.handle),
            parts.tail_rotor.element_count,
            Some(h.body),
            seq![],
        )
        &&& self.node_is(
            h.door as int,
            rest,
            world,
            Some(parts.door.handle),
            parts.door.element_count,
            Some(h.body),
            seq![],
        )
    }
}

impl<T: Copy, M: Copy> SceneGraph<T, M> {
    /// Adds the five nodes of one helicopter, created in the order root, body,
    /// door, main rotor, tail rotor. Nodes already in the graph are unchanged.
    pub fn add_helicopter(
        &mut self,
        id: u32,
        parts: &HelicopterParts,
        rest: Pose<T>,
        tail_rotor_pose: Pose<T>,
        world: M,
    ) -> (h: Helicopter)
        requires
            old(self).wf(),
            old(self)@.len() + 5 <= usize::MAX,
        ensures
            final(self).wf(),
            final(self)@.len() == old(self)@.len() + 5,
            forall|k: int| old(self).has_node(k) ==> final(self)@[k] == old(self)@[k],
            h.id == id,
            h.root == old(self)@.len(),
            h.body == old(self)@.len() + 1,
            h.door == old(self)@.len() + 2,
            h.main_rotor == old(self)@.len() + 3,
            h.tail_rotor == old(self)@.len() + 4,
            final(self).holds_helicopter(h, *parts, rest, tail_rotor_pose, world),
    {
        let root = self.create_empty(rest, world);
        let body = self.create_with_geometry(rest, world, parts.body.handle, parts.body.element_count);
        let door = self.create_with_geometry(rest, world, parts.door.handle, parts.door.element_count);
        let main_rotor = self.create_with_geometry(rest, world, parts.main_rotor.handle, parts.main_rotor.element_count);
        let tail_rotor = self.create_with_geometry(
            tail_rotor_pose,
            world,
            parts.tail_rotor.handle,
            parts.tail_rotor.element_count,
        );
        let ghost g = *self;
        let ghost n = old(self)@.len() as int;
        proof {
            assert forall|k: int| old(self).has_node(k) implies #[trigger] g@[k] == old(self)@[k] by {}
            assert(g.root_of(root as int) == root as int);
            assert(g.root_of(body as int) == body as int);
            assert(g.root_of(main_rotor as int) == main_rotor as int);
            assert(g.root_of(tail_rotor as int) == tail_rotor as int);
            assert(g.root_of(door as int) == door as int);
        }
        let r1 = self.add_child(root, body);
        let ghost g1 = *self;
        assert(r1 is Ok);
        let r2 = self.add_child(body, main_rotor);
        let ghost g2 = *self;
        assert(r2 is Ok);
        let r3 = self.add_child(body, tail_rotor);
        let ghost g3 = *self;
        assert(r3 is Ok);
        let r4 = self.add_child(body, door);
        assert(r4 is Ok);
        proof {
            assert forall|k: int| old(self).has_node(k) implies #[trigger] self@[k] == old(self)@[k] by {
                assert(g@[k] == old(self)@[k]);
                assert(g.has_node(k) && g1.has_node(k) && g2.has_node(k));
                assert(k != root as int && k != body as int && k != main_rotor as int);
                assert(g1@[k] == g@[k]);
                assert(g2@[k] == g1@[k]);
                assert(g3@[k] == g2@[k]);
                assert(g3.has_node(k) && k != door as int && k != tail_rotor as int);
                assert(self@[k] == g3@[k]);
            }
            assert(self@[body as int].children@ =~= seq![main_rotor, tail_rotor, door]);
            assert(self@[root as int].children@ =~= seq![body]);
            assert(g1.has_node(root as int) && g2.has_node(root as int) && g3.has_node(root as int));
            assert(g2@[root as int] == g1@[root as int]);
            assert(g3@[root as int] == g2@[root as int]);
            assert(self@[root as int] == g3@[root as int]);
            assert(self.node_is(root as int, rest, world, None, -1i32, None, seq![body]));
            assert(g2.has_node(main_rotor as int) && g3.has_node(main_rotor as int));
            assert(g3@[main_rotor as int] == g2@[main_rotor as int]);
            assert(self@[main_rotor as int] == g3@[main_rotor as int]);
            assert(g2@[main_rotor as int].children@ == g@[main_rotor as int].children@);
            assert(g1@[main_rotor as int] == g@[main_rotor as int]);
            assert(g1@[tail_rotor as int] == g@[tail_rotor as int]);
            assert(g2@[tail_rotor as int] == g1@[tail_rotor as int]);
            assert(g3.has_node(tail_rotor as int));
            assert(self@[tail_rotor as int] == g3@[tail_rotor as int]);
            assert(g1@[door as int] == g@[door as int]);
            assert(g2@[door as int] == g1@[door as int]);
            assert(g3@[door as int] == g2@[door as int]);
            assert(g@[body as int].pose == rest && g@[body as int].world == world);
            assert(self@[body as int].pose == rest);
            assert(self@[body as int].parent == Some(root));
            assert(self@[main_rotor as int].parent == Some(body));
            assert(self@[tail_rotor as int].parent == Some(body));
            assert(self@[door as int].parent == Some(body));
            assert(self@[main_rotor as int].children@.len() == 0);
            assert(self@[tail_rotor as int].children@.len() == 0);
            assert(self@[door as int].children@ =~= seq![]);
            assert(self@[main_rotor as int].children@ =~= seq![]);
            assert(self@[tail_rotor as int].children@ =~= seq![]);
        }
        Helicopter { id, root, body, door, main_rotor, tail_rotor }
    }

    /// Adds `count` helicopters with ids 1 to `count`, in that order.
    pub fn create_helicopters(
        &mut self,
        count: u32,
        parts: &HelicopterParts,
        rest: Pose<T>,
        tail_rotor_pose: Pose<T>,
        world: M,
    ) -> (hs: Vec<Helicopter>)
        requires
            old(self).wf(),
            old(self)@.len() + 5 * count <= usize::MAX,
        ensures
            final(self).wf(),
            final(self)@.len() == old(self)@.len() + 5 * count,
            forall|k: int| old(self).has_node(k) ==> final(self)@[k] == old(self)@[k],
            hs@.len() == count,
            forall|i: int|
                0 <= i < count ==> {
                    &&& (#[trigger] hs@[i]).id == i + 1
                    &&& hs@[i].root == old(self)@.len() + 5 * i
                    &&& final(self).holds_helicopter(hs@[i], *parts, rest, tail_rotor_pose, world)
                },
    {
        let mut hs: Vec<Helicopter> = Vec::new();
        let mut i: u32 = 0;
        while i < count
            invariant
                self.wf(),
                i <= count,
                old(self)@.len() + 5 * count <= usize::MAX,
                self@.len() == old(self)@.len() + 5 * i,
                forall|k: int| old(self).has_node(k) ==> self@[k] == old(self)@[k],
                hs@.len() == i,
                forall|j: int|
                    0 <= j < i ==> {
                        &&& (#[trigger] hs@[j]).id == j + 1
                        &&& hs@[j].root == old(self)@.len() + 5 * j
                        &&& self.holds_helicopter(hs@[j], *parts, rest, tail_rotor_pose, world)
                    },
            decreases count - i,
        {
            let ghost before = *self;
            let h = self.add_helicopter(i + 1, parts, rest, tail_rotor_pose, world);
            proof {
                assert forall|j: int| 0 <= j < i implies self.holds_helicopter(
                    #[trigger] hs@[j],
                    *parts,
                    rest,
                    tail_rotor_pose,
                    world,
                ) by {
                    assert(before.holds_helicopter(hs@[j], *parts, rest, tail_rotor_pose, world));
                    let hj = hs@[j];
                    assert(self@[hj.root as int] == before@[hj.root as int]);
                    assert(self@[hj.body as int] == before@[hj.body as int]);
                    assert(self@[hj.door as int] == before@[hj.door as int]);
                    assert(self@[hj.main_rotor as int] == before@[hj.main_rotor as int]);
                    assert(self@[hj.tail_rotor as int] == before@[hj.tail_rotor as int]);
                }
            }
            proof {
                assert forall|k: int| old(self).has_node(k) implies #[trigger] self@[k] == old(self)@[k] by {
                    assert(before@[k] == old(self)@[k]);
                    assert(before.has_node(k));
                    assert(self@[k] == before@[k]);
                }
            }
            hs.push(h);
            i += 1;
        }
        hs
    }
}

} // verus!
