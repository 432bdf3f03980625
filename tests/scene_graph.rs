use nalgebra_glm as glm;
use seal_engine::scene::{NodeHandle, SceneError, SceneGraph};

#[derive(Clone, Copy, Debug, PartialEq)]
struct Placement {
    position: glm::Vec3,
    rotation: glm::Quat,
    scale: glm::Vec3,
}

impl Placement {
    fn identity() -> Placement {
        Placement {
            position: glm::vec3(0.0, 0.0, 0.0),
            rotation: glm::quat_identity(),
            scale: glm::vec3(1.0, 1.0, 1.0),
        }
    }

    fn at(x: f32, y: f32, z: f32) -> Placement {
        Placement { position: glm::vec3(x, y, z), ..Placement::identity() }
    }

    fn to_matrix(&self) -> glm::Mat4 {
        glm::translation(&self.position) * glm::quat_to_mat4(&self.rotation) * glm::scaling(&self.scale)
    }
}

fn compose(parent: glm::Mat4, local: Placement) -> glm::Mat4 {
    parent * local.to_matrix()
}

type Graph = SceneGraph<Placement, glm::Mat4, String>;

fn new_graph() -> Graph {
    SceneGraph::new("Root Scene".to_string(), Placement::identity(), glm::Mat4::identity())
}

fn world(g: &Graph, h: NodeHandle) -> glm::Mat4 {
    g.get_node(h).unwrap().world_transform
}

fn local(g: &Graph, h: NodeHandle) -> Placement {
    g.get_node(h).unwrap().transform
}

#[test]
fn new_graph_has_only_the_root() {
    let g = new_graph();
    let root = g.root();
    assert_eq!(root, NodeHandle(0));
    let n = g.get_node(root).unwrap();
    assert_eq!(n.name, "Root Scene");
    assert!(n.parent.is_none());
    assert!(n.children.is_empty());
    assert!(!g.has_dirty_transforms());
    assert!(g.get_node(NodeHandle(1)).is_none());
}

#[test]
fn create_node_defaults() {
    let mut g = new_graph();
    let x = g.create_node("X".to_string());
    assert_eq!(x, NodeHandle(1));
    {
        let n = g.get_node(x).unwrap();
        assert_eq!(n.name, "X");
        assert_eq!(n.instances.len(), 1);
        assert_eq!(n.instances[0], Placement::identity());
        assert!(n.visible);
        assert!(n.children.is_empty());
        assert!(n.parent.is_none());
        assert!(n.model.is_none());
        assert_eq!(n.transform, Placement::identity());
    }
    assert!(g.is_dirty(x));
    g.attach_to_root(x).unwrap();
    g.update_transforms(compose);
    assert_eq!(world(&g, x), glm::Mat4::identity());
    assert!(!g.has_dirty_transforms());
}

#[test]
fn handles_are_never_reused() {
    let mut g = new_graph();
    let a = g.create_node("a".to_string());
    let b = g.create_node("b".to_string());
    let c = g.create_node("c".to_string());
    assert_eq!((a, b, c), (NodeHandle(1), NodeHandle(2), NodeHandle(3)));
}

#[test]
fn recompute_twice_is_stable() {
    let mut g = new_graph();
    let a = g.create_node("a".to_string());
    let b = g.create_node("b".to_string());
    g.attach_to_root(a).unwrap();
    g.attach_to_parent(b, a).unwrap();
    g.set_transform(a, Placement::at(1.0, 2.0, 3.0));
    g.set_transform(b, Placement { scale: glm::vec3(2.0, 2.0, 2.0), ..Placement::at(0.0, 1.0, 0.0) });
    g.update_transforms(compose);
    assert!(!g.has_dirty_transforms());
    let first = [world(&g, g.root()), world(&g, a), world(&g, b)];
    g.update_transforms(compose);
    assert!(!g.has_dirty_transforms());
    let second = [world(&g, g.root()), world(&g, a), world(&g, b)];
    assert_eq!(first, second);
}

#[test]
fn ancestor_change_propagates() {
    let mut g = new_graph();
    let a = g.create_node("a".to_string());
    let b = g.create_node("b".to_string());
    let c = g.create_node("c".to_string());
    g.attach_to_root(a).unwrap();
    g.attach_to_parent(b, a).unwrap();
    g.attach_to_parent(c, b).unwrap();
    g.set_transform(b, Placement::at(0.0, 0.0, 5.0));
    g.set_transform(c, Placement::at(1.0, 0.0, 0.0));
    g.update_transforms(compose);
    let before_c = world(&g, c);
    assert_eq!(before_c, glm::translation(&glm::vec3(1.0, 0.0, 5.0)));

    let turned = Placement {
        rotation: glm::quat_angle_axis(std::f32::consts::FRAC_PI_2, &glm::vec3(0.0, 1.0, 0.0)),
        ..Placement::at(10.0, 0.0, 0.0)
    };
    g.set_transform(a, turned);
    assert!(g.is_dirty(a) && g.is_dirty(b) && g.is_dirty(c));
    g.update_transforms(compose);
    let wa = world(&g, a);
    assert_eq!(wa, turned.to_matrix());
    assert_eq!(world(&g, b), wa * local(&g, b).to_matrix());
    assert_eq!(world(&g, c), wa * local(&g, b).to_matrix() * local(&g, c).to_matrix());
    assert_ne!(world(&g, c), before_c);
}

#[test]
fn reparent_moves_child() {
    let mut g = new_graph();
    let old_parent = g.create_node("old_parent".to_string());
    let new_parent = g.create_node("new_parent".to_string());
    let x = g.create_node("x".to_string());
    g.attach_to_root(old_parent).unwrap();
    g.attach_to_root(new_parent).unwrap();
    g.attach_to_parent(x, old_parent).unwrap();
    g.set_transform(old_parent, Placement::at(1.0, 0.0, 0.0));
    g.set_transform(new_parent, Placement::at(0.0, 7.0, 0.0));
    g.set_transform(x, Placement::at(0.0, 0.0, 2.0));
    g.update_transforms(compose);

    assert_eq!(g.attach_to_parent(x, new_parent), Ok(()));
    assert!(g.get_node(old_parent).unwrap().children.is_empty());
    assert_eq!(g.get_node(new_parent).unwrap().children, vec![x]);
    assert_eq!(g.get_node(x).unwrap().parent, Some(new_parent));
    assert!(g.is_dirty(x));
    g.update_transforms(compose);
    assert_eq!(world(&g, x), world(&g, new_parent) * local(&g, x).to_matrix());
    assert_eq!(world(&g, x), glm::translation(&glm::vec3(0.0, 7.0, 2.0)));
}

#[test]
fn reattach_to_same_parent_keeps_order() {
    let mut g = new_graph();
    let a = g.create_node("a".to_string());
    let b = g.create_node("b".to_string());
    g.attach_to_root(a).unwrap();
    g.attach_to_root(b).unwrap();
    g.update_transforms(compose);
    assert_eq!(g.attach_to_root(a), Ok(()));
    assert_eq!(g.get_node(g.root()).unwrap().children, vec![a, b]);
    assert!(g.is_dirty(a));
    assert!(!g.is_dirty(b));
}

#[test]
fn invalid_handles_are_rejected_or_ignored() {
    let mut g = new_graph();
    let a = g.create_node("a".to_string());
    g.attach_to_root(a).unwrap();
    g.update_transforms(compose);
    let ghost = NodeHandle(42);

    assert_eq!(g.attach_to_parent(ghost, a), Err(SceneError::InvalidHandle));
    assert_eq!(g.attach_to_parent(a, ghost), Err(SceneError::InvalidHandle));
    assert_eq!(g.attach_to_root(ghost), Err(SceneError::InvalidHandle));
    assert_eq!(g.set_model_ref(ghost, &"mesh".to_string()), Err(SceneError::InvalidHandle));
    g.set_transform(ghost, Placement::at(1.0, 1.0, 1.0));
    g.mark_transform_dirty(ghost);
    g.set_model(ghost, "mesh".to_string());
    assert!(g.get_node(ghost).is_none());
    assert!(g.get_node_mut(ghost).is_none());
    assert!(!g.has_dirty_transforms());
    assert!(!g.is_dirty(ghost));
    assert_eq!(g.get_node(a).unwrap().parent, Some(g.root()));
    assert_eq!(g.get_node(g.root()).unwrap().children, vec![a]);
    assert_eq!(g.create_node("b".to_string()), NodeHandle(2));
}

#[test]
fn cycles_are_rejected() {
    let mut g = new_graph();
    let a = g.create_node("a".to_string());
    let b = g.create_node("b".to_string());
    g.attach_to_root(a).unwrap();
    g.attach_to_parent(b, a).unwrap();
    g.update_transforms(compose);
    let root = g.root();

    assert_eq!(g.attach_to_parent(root, b), Err(SceneError::RootHasNoParent));
    assert_eq!(g.attach_to_root(root), Err(SceneError::RootHasNoParent));
    assert_eq!(g.attach_to_parent(a, b), Err(SceneError::WouldCreateCycle));
    assert_eq!(g.attach_to_parent(a, a), Err(SceneError::WouldCreateCycle));
    assert!(!g.has_dirty_transforms());
    assert!(g.get_node(root).unwrap().parent.is_none());
    assert_eq!(g.get_node(a).unwrap().parent, Some(root));
    assert_eq!(g.get_node(b).unwrap().parent, Some(a));
    g.update_transforms(compose);
    assert!(g.in_subtree(a, b));
    assert!(!g.in_subtree(b, a));
}

#[test]
fn mark_transform_dirty_covers_the_subtree_only() {
    let mut g = new_graph();
    let a = g.create_node("a".to_string());
    let b = g.create_node("b".to_string());
    let c = g.create_node("c".to_string());
    let d = g.create_node("d".to_string());
    g.attach_to_root(a).unwrap();
    g.attach_to_parent(b, a).unwrap();
    g.attach_to_parent(c, b).unwrap();
    g.attach_to_root(d).unwrap();
    g.update_transforms(compose);
    g.mark_transform_dirty(b);
    assert!(g.is_dirty(b));
    assert!(g.is_dirty(c));
    assert!(!g.is_dirty(a));
    assert!(!g.is_dirty(d));
    assert!(!g.is_dirty(g.root()));
}

#[test]
fn clean_graph_is_not_recomputed() {
    let mut g = new_graph();
    let a = g.create_node("a".to_string());
    g.attach_to_root(a).unwrap();
    g.update_transforms(compose);
    // A change that bypasses dirty marking is not picked up...
    g.get_node_mut(a).unwrap().transform = Placement::at(3.0, 0.0, 0.0);
    g.update_transforms(compose);
    assert_eq!(world(&g, a), glm::Mat4::identity());
    // ...until the node is marked.
    g.mark_transform_dirty(a);
    g.update_transforms(compose);
    assert_eq!(world(&g, a), glm::translation(&glm::vec3(3.0, 0.0, 0.0)));
}

#[test]
fn detached_nodes_keep_their_world_transform() {
    let mut g = new_graph();
    let loose = g.create_node("loose".to_string());
    g.set_transform(loose, Placement::at(4.0, 0.0, 0.0));
    g.set_transform(g.root(), Placement::at(0.0, 1.0, 0.0));
    g.update_transforms(compose);
    assert_eq!(world(&g, loose), glm::Mat4::identity());
    assert_eq!(world(&g, g.root()), glm::translation(&glm::vec3(0.0, 1.0, 0.0)));
    assert!(!g.has_dirty_transforms());
}

#[test]
fn visible_models_are_listed_in_handle_order() {
    let mut g = new_graph();
    let a = g.create_node("a".to_string());
    let b = g.create_node("b".to_string());
    let c = g.create_node("c".to_string());
    g.set_model(c, "crate".to_string());
    assert_eq!(g.set_model_ref(a, &"bridge".to_string()), Ok(()));
    g.set_model(b, "hidden".to_string());
    g.get_node_mut(b).unwrap().visible = false;
    let drawn: Vec<(NodeHandle, String)> =
        g.iter_visible_models().into_iter().map(|(h, n)| (h, n.model.clone().unwrap())).collect();
    assert_eq!(drawn, vec![(a, "bridge".to_string()), (c, "crate".to_string())]);
    assert!(!g.is_dirty(g.root()));
}

#[test]
fn node_instances_can_be_edited() {
    let mut g = new_graph();
    let a = g.create_node("a".to_string());
    let n = g.get_node_mut(a).unwrap();
    n.add_instance(Placement::at(1.0, 0.0, 0.0));
    assert_eq!(n.instances.len(), 2);
    n.set_instances(vec![Placement::at(2.0, 0.0, 0.0)]);
    assert_eq!(g.get_node(a).unwrap().instances, vec![Placement::at(2.0, 0.0, 0.0)]);
}

#[test]
fn subtree_update_starts_from_the_given_parent_world() {
    let mut g = new_graph();
    let a = g.create_node("a".to_string());
    let b = g.create_node("b".to_string());
    let other = g.create_node("other".to_string());
    g.attach_to_root(a).unwrap();
    g.attach_to_parent(b, a).unwrap();
    g.attach_to_root(other).unwrap();
    g.set_transform(a, Placement::at(1.0, 0.0, 0.0));
    g.set_transform(b, Placement::at(0.0, 2.0, 0.0));
    g.set_transform(other, Placement::at(5.0, 5.0, 5.0));
    let base = glm::translation(&glm::vec3(0.0, 0.0, 10.0));
    g.update_node_transform(a, base, compose);
    assert_eq!(world(&g, a), glm::translation(&glm::vec3(1.0, 0.0, 10.0)));
    assert_eq!(world(&g, b), glm::translation(&glm::vec3(1.0, 2.0, 10.0)));
    assert_eq!(world(&g, other), glm::Mat4::identity());
    assert_eq!(world(&g, g.root()), glm::Mat4::identity());
    // The dirty set is left to the full recompute.
    assert!(g.is_dirty(a));
}
