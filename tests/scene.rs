use nalgebra_glm as glm;
use scene_graph::graph::{GraphError, Pose, SceneGraph};
use scene_graph::helicopter::{Geometry, HelicopterParts};
use scene_graph::traversal::DrawCall;

type Graph = SceneGraph<glm::Vec3, glm::Mat4>;

fn rest_pose() -> Pose<glm::Vec3> {
    Pose {
        position: glm::vec3(0.0, 0.0, 0.0),
        rotation: glm::vec3(0.0, 0.0, 0.0),
        reference_point: glm::vec3(0.0, 0.0, 0.0),
        scale: glm::vec3(1.0, 1.0, 1.0),
    }
}

fn translated(t: glm::Vec3) -> Pose<glm::Vec3> {
    Pose { position: t, ..rest_pose() }
}

fn identity() -> glm::Mat4 {
    glm::Mat4::identity()
}

/// Pivot-aware local transform: move the pivot to the origin, rotate about X,
/// then Y, then Z, move the pivot back, then translate by the position.
fn local_transform(p: &Pose<glm::Vec3>) -> glm::Mat4 {
    let r = p.reference_point;
    let mut m = glm::translation(&glm::vec3(-r.x, -r.y, -r.z));
    m = glm::rotation(p.rotation.x, &glm::vec3(1.0, 0.0, 0.0)) * m;
    m = glm::rotation(p.rotation.y, &glm::vec3(0.0, 1.0, 0.0)) * m;
    m = glm::rotation(p.rotation.z, &glm::vec3(0.0, 0.0, 1.0)) * m;
    m = glm::translation(&r) * m;
    glm::translation(&p.position) * m
}

fn apply(parent: &glm::Mat4, p: &Pose<glm::Vec3>) -> glm::Mat4 {
    parent * local_transform(p)
}

fn multiply(a: &glm::Mat4, b: &glm::Mat4) -> glm::Mat4 {
    a * b
}

fn transform_point(m: &glm::Mat4, p: glm::Vec3) -> glm::Vec3 {
    let v = m * glm::vec4(p.x, p.y, p.z, 1.0);
    glm::vec3(v.x, v.y, v.z)
}

fn close(a: &glm::Mat4, b: &glm::Mat4) -> bool {
    (a - b).iter().all(|d| d.abs() < 1e-5)
}

fn close_vec(a: glm::Vec3, b: glm::Vec3) -> bool {
    (a - b).iter().all(|d| d.abs() < 1e-5)
}

fn empty(g: &mut Graph) -> usize {
    g.create_empty(rest_pose(), identity())
}

fn drawn(g: &mut Graph, handle: u32, count: i32) -> usize {
    g.create_with_geometry(rest_pose(), identity(), handle, count)
}

fn nodes_of(calls: &[DrawCall<glm::Mat4>]) -> Vec<usize> {
    calls.iter().map(|c| c.node).collect()
}

#[test]
fn identity_root_stays_identity() {
    let mut g = Graph::new();
    let root = empty(&mut g);
    let child = g.create_with_geometry(translated(glm::vec3(3.0, 0.0, 0.0)), identity(), 1, 6);
    assert_eq!(g.add_child(root, child), Ok(()));
    g.update_transforms(root, &identity(), &apply);
    assert_eq!(g.node(root).world, identity());
    assert_eq!(g.node(child).world, glm::translation(&glm::vec3(3.0, 0.0, 0.0)));
}

#[test]
fn translations_compose_along_a_chain() {
    let mut g = Graph::new();
    let root = g.create_empty(translated(glm::vec3(1.0, 2.0, 3.0)), identity());
    let a = g.create_empty(translated(glm::vec3(4.0, 5.0, 6.0)), identity());
    let b = g.create_empty(translated(glm::vec3(7.0, 8.0, 9.0)), identity());
    assert_eq!(g.add_child(root, a), Ok(()));
    assert_eq!(g.add_child(a, b), Ok(()));
    g.update_transforms(root, &identity(), &apply);
    assert_eq!(g.node(b).world, glm::translation(&glm::vec3(12.0, 15.0, 18.0)));
    assert_eq!(transform_point(&g.node(b).world, glm::vec3(0.0, 0.0, 0.0)), glm::vec3(12.0, 15.0, 18.0));
}

#[test]
fn rotation_pivots_about_reference_point() {
    let theta: f32 = 0.7;
    let p = glm::vec3(2.0, -1.0, 0.5);
    let mut g = Graph::new();
    let pose = Pose { rotation: glm::vec3(0.0, 0.0, theta), reference_point: p, ..rest_pose() };
    let n = g.create_with_geometry(pose, identity(), 1, 3);
    g.update_transforms(n, &identity(), &apply);
    let w = g.node(n).world;
    assert!(close_vec(transform_point(&w, p), p));
    let moved = transform_point(&w, p + glm::vec3(1.0, 0.0, 0.0));
    assert!(close_vec(moved, p + glm::vec3(theta.cos(), theta.sin(), 0.0)));
}

#[test]
fn draw_skips_nodes_without_geometry() {
    let mut g = Graph::new();
    let root = empty(&mut g);
    let negative = drawn(&mut g, 7, -1);
    let below_negative = drawn(&mut g, 8, 12);
    let below_root = drawn(&mut g, 9, 0);
    assert_eq!(g.add_child(root, negative), Ok(()));
    assert_eq!(g.add_child(negative, below_negative), Ok(()));
    assert_eq!(g.add_child(root, below_root), Ok(()));
    g.update_transforms(root, &identity(), &apply);
    let calls = g.draw_scene(root, &identity(), &multiply);
    assert_eq!(nodes_of(&calls), vec![below_negative, below_root]);
    assert_eq!(calls[0].handle, 8);
    assert_eq!(calls[0].element_count, 12);
    assert_eq!(calls[1].handle, 9);
    assert_eq!(calls[1].element_count, 0);
}

#[test]
fn draw_follows_pre_order() {
    let mut g = Graph::new();
    let root = drawn(&mut g, 1, 3);
    let a = drawn(&mut g, 2, 3);
    let b = drawn(&mut g, 3, 3);
    let c = drawn(&mut g, 4, 3);
    let d = drawn(&mut g, 5, 3);
    for (p, ch) in [(root, a), (root, b), (root, c), (a, d)] {
        assert_eq!(g.add_child(p, ch), Ok(()));
    }
    assert_eq!(g.visit_order(root), vec![root, a, d, b, c]);
    let calls = g.draw_scene(root, &identity(), &multiply);
    assert_eq!(nodes_of(&calls), vec![root, a, d, b, c]);
    let handles: Vec<u32> = calls.iter().map(|c| c.handle).collect();
    assert_eq!(handles, vec![1, 2, 5, 3, 4]);
}

#[test]
fn draw_call_carries_mvp_and_model() {
    let mut g = Graph::new();
    let root = g.create_with_geometry(translated(glm::vec3(1.0, 0.0, 0.0)), identity(), 4, 9);
    g.update_transforms(root, &identity(), &apply);
    let vp = glm::translation(&glm::vec3(0.0, 0.0, -1.0)) * glm::scaling(&glm::vec3(2.0, 2.0, 2.0));
    let calls = g.draw_scene(root, &vp, &multiply);
    assert_eq!(calls.len(), 1);
    assert_eq!(calls[0].model, glm::translation(&glm::vec3(1.0, 0.0, 0.0)));
    assert_eq!(calls[0].mvp, vp * glm::translation(&glm::vec3(1.0, 0.0, 0.0)));
}

#[test]
fn update_twice_is_bit_identical() {
    let mut g = Graph::new();
    let root = g.create_empty(Pose { rotation: glm::vec3(0.3, 0.2, 0.1), ..rest_pose() }, identity());
    let a = g.create_with_geometry(
        Pose {
            position: glm::vec3(1.5, -2.0, 0.25),
            rotation: glm::vec3(0.9, -0.4, 2.0),
            reference_point: glm::vec3(0.35, 2.3, 10.4),
            scale: glm::vec3(1.0, 1.0, 1.0),
        },
        identity(),
        1,
        3,
    );
    let b = drawn(&mut g, 2, 3);
    assert_eq!(g.add_child(root, a), Ok(()));
    assert_eq!(g.add_child(a, b), Ok(()));
    g.update_transforms(root, &identity(), &apply);
    let first: Vec<glm::Mat4> = (0..g.len()).map(|i| g.node(i).world).collect();
    g.update_transforms(root, &identity(), &apply);
    let second: Vec<glm::Mat4> = (0..g.len()).map(|i| g.node(i).world).collect();
    assert_eq!(first, second);
}

#[test]
fn helicopter_rotor_and_tail_pivot() {
    let parts = HelicopterParts {
        body: Geometry { handle: 10, element_count: 30 },
        door: Geometry { handle: 11, element_count: 31 },
        main_rotor: Geometry { handle: 12, element_count: 32 },
        tail_rotor: Geometry { handle: 13, element_count: 33 },
    };
    let tail = Pose { reference_point: glm::vec3(0.35, 2.3, 10.4), ..rest_pose() };
    let mut g = Graph::new();
    let root = empty(&mut g);
    let surface = drawn(&mut g, 1, 100);
    assert_eq!(g.add_child(root, surface), Ok(()));
    let hs = g.create_helicopters(1, &parts, rest_pose(), tail, identity());
    let h = hs[0];
    assert_eq!(g.add_child(surface, h.root), Ok(()));
    let mut spin = g.node(h.main_rotor).pose;
    spin.rotation.y = 1.5708;
    g.set_pose(h.main_rotor, spin);
    g.update_transforms(root, &identity(), &apply);
    let quarter_turn = glm::rotation(1.5708, &glm::vec3(0.0, 1.0, 0.0));
    assert!(close(&g.node(h.main_rotor).world, &quarter_turn));
    assert!(close_vec(transform_point(&g.node(h.main_rotor).world, glm::vec3(0.0, 0.0, 0.0)), glm::vec3(0.0, 0.0, 0.0)));
    assert!(close(&g.node(h.tail_rotor).world, &identity()));
    let calls = g.draw_scene(root, &identity(), &multiply);
    assert_eq!(nodes_of(&calls), vec![surface, h.body, h.main_rotor, h.tail_rotor, h.door]);
}

#[test]
fn create_helicopters_links_parts() {
    let parts = HelicopterParts {
        body: Geometry { handle: 1, element_count: 10 },
        door: Geometry { handle: 2, element_count: 20 },
        main_rotor: Geometry { handle: 3, element_count: 30 },
        tail_rotor: Geometry { handle: 4, element_count: 40 },
    };
    let mut g = Graph::new();
    let surface = empty(&mut g);
    let hs = g.create_helicopters(3, &parts, rest_pose(), rest_pose(), identity());
    assert_eq!(g.len(), 16);
    let ids: Vec<u32> = hs.iter().map(|h| h.id).collect();
    assert_eq!(ids, vec![1, 2, 3]);
    for (i, h) in hs.iter().enumerate() {
        assert_eq!(h.root, 1 + 5 * i);
        assert_eq!((h.body, h.door, h.main_rotor, h.tail_rotor), (h.root + 1, h.root + 2, h.root + 3, h.root + 4));
        assert_eq!(g.node(h.root).children, vec![h.body]);
        assert_eq!(g.node(h.body).children, vec![h.main_rotor, h.tail_rotor, h.door]);
        assert_eq!(g.node(h.body).parent, Some(h.root));
        assert_eq!(g.node(h.door).drawable, Some(2));
        assert_eq!(g.node(h.tail_rotor).element_count, 40);
        assert_eq!(g.node(h.root).drawable, None);
        assert_eq!(g.add_child(surface, h.root), Ok(()));
    }
    assert_eq!(g.node(surface).children, vec![1, 6, 11]);
}

#[test]
fn add_child_rejects_unknown_nodes() {
    let mut g = Graph::new();
    let a = empty(&mut g);
    assert_eq!(g.add_child(a, 5), Err(GraphError::NoSuchNode));
    assert_eq!(g.add_child(5, a), Err(GraphError::NoSuchNode));
}

#[test]
fn add_child_rejects_second_parent() {
    let mut g = Graph::new();
    let a = empty(&mut g);
    let b = empty(&mut g);
    let c = empty(&mut g);
    assert_eq!(g.add_child(a, c), Ok(()));
    assert_eq!(g.add_child(b, c), Err(GraphError::AlreadyAttached));
    assert_eq!(g.add_child(a, c), Err(GraphError::AlreadyAttached));
    assert_eq!(g.node(a).children, vec![c]);
    assert!(g.node(b).children.is_empty());
}

#[test]
fn add_child_rejects_cycles() {
    let mut g = Graph::new();
    let a = empty(&mut g);
    let b = empty(&mut g);
    let c = empty(&mut g);
    assert_eq!(g.add_child(a, a), Err(GraphError::WouldCycle));
    assert_eq!(g.add_child(a, b), Ok(()));
    assert_eq!(g.add_child(b, c), Ok(()));
    assert_eq!(g.add_child(c, a), Err(GraphError::WouldCycle));
    assert_eq!(g.node(a).parent, None);
    assert_eq!(g.visit_order(a), vec![a, b, c]);
}

#[test]
fn update_leaves_other_trees_alone() {
    let mut g = Graph::new();
    let a = g.create_empty(translated(glm::vec3(1.0, 0.0, 0.0)), identity());
    let b = g.create_empty(translated(glm::vec3(0.0, 1.0, 0.0)), identity());
    g.update_transforms(a, &identity(), &apply);
    assert_eq!(g.node(a).world, glm::translation(&glm::vec3(1.0, 0.0, 0.0)));
    assert_eq!(g.node(b).world, identity());
}
