use vstd::prelude::*;
use crate::graph::{Pose, SceneGraph};

verus! {

/// Draw skip: of the nodes in the subtree of `root`, exactly those that have
/// geometry and a non-negative element count get a draw call, whether or not
/// their ancestors draw.
pub proof fn lemma_draw_skip<T, M>(g: &SceneGraph<T, M>, root: int, x: usize)
    requires
        g.wf(),
        g.has_node(root),
        g.preorder(root).contains(x),
    ensures
        g.draw_order(root).contains(x) <==> g@[x as int].renders(),
{
    let pred = |i: usize| g@[i as int].renders();
    let s = g.preorder(root);
    s.filter_lemma(pred);
    if g@[x as int].renders() {
        let i = choose|i: int| 0 <= i < s.len() && s[i] == x;
        s.lemma_filter_contains(pred, i);
    }
}

/// Idempotence: updating the subtree of `root` twice from the same parent
/// transform, with nothing changed in between, leaves the graph exactly as
/// the first update left it, provided `apply` gives one result for each input.
pub proof fn lemma_update_idempotent<T, M, F: Fn(&M, &Pose<T>) -> M>(
    before: &SceneGraph<T, M>,
    first: &SceneGraph<T, M>,
    second: &SceneGraph<T, M>,
    root: int,
    parent_world: M,
    apply: F,
)
    requires
        before.wf(),
        before.has_node(root),
        forall|a: &M, p: &Pose<T>, r1: M, r2: M|
            apply.ensures((a, p), r1) && apply.ensures((a, p), r2) ==> r1 == r2,
        first.updated_from(before, root, parent_world, apply),
        second.updated_from(first, root, parent_world, apply),
    ensures
        second@ == first@,
{
    assert forall|y: int| first.has_node(y) implies #[trigger] second@[y] == first@[y] by {
        before.lemma_same_links_subtree(first, root, y);
        if first.in_subtree(root, y) {
            lemma_same_world(before, first, second, root, parent_world, apply, y);
        }
    }
    assert(second@ =~= first@);
}

/// Two consecutive updates agree on the world transform of each node of the subtree.
proof fn lemma_same_world<T, M, F: Fn(&M, &Pose<T>) -> M>(
    before: &SceneGraph<T, M>,
    first: &SceneGraph<T, M>,
    second: &SceneGraph<T, M>,
    root: int,
    parent_world: M,
    apply: F,
    y: int,
)
    requires
        before.wf(),
        before.has_node(root),
        before.has_node(y),
        before.in_subtree(root, y),
        forall|a: &M, p: &Pose<T>, r1: M, r2: M|
            apply.ensures((a, p), r1) && apply.ensures((a, p), r2) ==> r1 == r2,
        first.updated_from(before, root, parent_world, apply),
        second.updated_from(first, root, parent_world, apply),
    ensures
        first@[y].world == second@[y].world,
    decreases before.rank()[y],
{
    before.lemma_same_links_subtree(first, root, y);
    assert(first.world_follows(root, y, parent_world, apply));
    assert(second.world_follows(root, y, parent_world, apply));
    if y != root {
        assert(before.parent_edge_ok(y));
        let q = before@[y].parent.unwrap() as int;
        lemma_same_world(before, first, second, root, parent_world, apply, q);
    }
}

} // verus!
