use scene_graph::Component;
use scene_graph::Id;
use scene_graph::World;

fn transform_id() -> Id {
    Id::of(1, 1)
}

fn transform_manager_id() -> Id {
    Id::of(100, 100)
}

fn transform(position: [f32; 2]) -> Component<[f32; 2]> {
    Component::new(transform_id(), transform_manager_id(), 0, position)
}

#[test]
fn test_scene() {
    let mut w: World<[f32; 2]> = World::new();
    let scene = w.new_scene();
    let entity0 = w.new_entity();
    let entity1 = w.new_entity();
    let entity2 = w.new_entity();

    w.add_child(entity0, entity1).unwrap();
    w.add_child(entity0, entity2).unwrap();

    w.add_entity(scene, entity0);

    assert_eq!(w.depth(entity0), 0);
    assert_eq!(w.depth(entity1), 1);
    assert_eq!(w.depth(entity2), 1);

    assert!(w.scene(entity0) == Some(scene));
    assert!(w.scene(entity1) == Some(scene));
    assert!(w.scene(entity2) == Some(scene));
}

#[test]
fn test_scene_remove() {
    let mut w: World<[f32; 2]> = World::new();
    let scene = w.new_scene();
    let entity0 = w.new_entity();
    let entity1 = w.new_entity();
    let entity2 = w.new_entity();

    w.add_child(entity0, entity1).unwrap();
    w.add_child(entity0, entity2).unwrap();

    w.add_entity(scene, entity0);
    w.remove_entity(scene, entity0);

    assert_eq!(w.depth(entity0), 0);
    assert_eq!(w.depth(entity1), 1);
    assert_eq!(w.depth(entity2), 1);

    assert!(w.parent(entity1) == Some(entity0));
    assert!(w.parent(entity2) == Some(entity0));

    assert!(w.scene(entity0) == None);
    assert!(w.scene(entity1) == None);
    assert!(w.scene(entity2) == None);
}

#[test]
fn test_entity_depth() {
    let mut w: World<[f32; 2]> = World::new();
    let entity0 = w.new_entity();
    let entity1 = w.new_entity();
    let entity2 = w.new_entity();
    let entity3 = w.new_entity();
    let entity4 = w.new_entity();
    let entity5 = w.new_entity();

    w.add_child(entity0, entity1).unwrap();
    w.add_child(entity0, entity2).unwrap();

    w.add_child(entity1, entity3).unwrap();
    w.add_child(entity3, entity4).unwrap();
    w.add_child(entity3, entity5).unwrap();

    assert_eq!(w.depth(entity0), 0);
    assert_eq!(w.depth(entity1), 1);
    assert_eq!(w.depth(entity2), 1);
    assert_eq!(w.depth(entity3), 2);
    assert_eq!(w.depth(entity4), 3);
    assert_eq!(w.depth(entity5), 3);

    assert!(w.parent(entity3) == Some(entity1));
    assert!(w.parent(entity4) == Some(entity3));
    assert!(w.parent(entity5) == Some(entity3));
}

#[test]
fn test_entity_depth_detach() {
    let mut w: World<[f32; 2]> = World::new();
    let entity0 = w.new_entity();
    let entity1 = w.new_entity();
    let entity2 = w.new_entity();
    let entity3 = w.new_entity();
    let entity4 = w.new_entity();
    let entity5 = w.new_entity();

    w.add_child(entity0, entity1).unwrap();
    w.add_child(entity0, entity2).unwrap();

    w.add_child(entity1, entity3).unwrap();
    w.add_child(entity3, entity4).unwrap();
    w.add_child(entity3, entity5).unwrap();

    w.detach(entity3);

    assert!(w.parent(entity3) == None);
    assert!(w.parent(entity4) == Some(entity3));
    assert!(w.parent(entity5) == Some(entity3));

    assert_eq!(w.depth(entity0), 0);
    assert_eq!(w.depth(entity1), 1);
    assert_eq!(w.depth(entity2), 1);
    assert_eq!(w.depth(entity3), 0);
    assert_eq!(w.depth(entity4), 1);
    assert_eq!(w.depth(entity5), 1);
}

#[test]
fn test_detach_child() {
    let mut w: World<[f32; 2]> = World::new();
    let parent = w.new_entity();
    let child = w.new_entity();
    let sibling = w.new_entity();

    w.add_child(parent, child).unwrap();
    w.add_child(parent, sibling).unwrap();

    w.detach(child);

    assert!(w.parent(child) == None);
    assert_eq!(w.depth(child), 0);
    assert!(!w.children(parent).contains(&child));
    assert!(w.children(parent).contains(&sibling));
    assert_eq!(w.depth(sibling), 1);
}

#[test]
fn test_self_parent_rejected() {
    let mut w: World<[f32; 2]> = World::new();
    let a = w.new_entity();
    let b = w.new_entity();

    assert!(w.add_child(a, a).is_err());

    w.add_child(a, b).unwrap();
    // parenting an entity under its own descendant would make a cycle
    assert!(w.add_child(b, a).is_err());
    assert!(w.parent(b) == Some(a));
    assert!(w.parent(a) == None);
}

#[test]
fn test_reparent_moves_subtree() {
    let mut w: World<[f32; 2]> = World::new();
    let a = w.new_entity();
    let b = w.new_entity();
    let c = w.new_entity();
    let d = w.new_entity();

    w.add_child(a, b).unwrap();
    w.add_child(b, c).unwrap();
    // implicit reparent: c moves from b to d, not an error
    w.add_child(d, c).unwrap();

    assert!(w.parent(c) == Some(d));
    assert_eq!(w.depth(c), 1);
    assert!(!w.children(b).contains(&c));
    assert!(w.children(d).contains(&c));
}

#[test]
fn test_remove_entity_of_descendant_is_noop() {
    let mut w: World<[f32; 2]> = World::new();
    let scene = w.new_scene();
    let root = w.new_entity();
    let child = w.new_entity();

    w.add_child(root, child).unwrap();
    w.add_entity(scene, root);

    // a descendant is reachable only through its parent: not removable alone
    let removed = w.remove_entity(scene, child);
    assert!(!removed);
    assert!(w.has_entity(scene, child));

    assert!(w.remove_entity(scene, root));
    assert!(!w.has_entity(scene, root));
    assert!(!w.has_entity(scene, child));
}

#[test]
fn test_scene_transfer() {
    let mut w: World<[f32; 2]> = World::new();
    let first = w.new_scene();
    let second = w.new_scene();
    let e = w.new_entity();

    w.add_component(e, transform([0.0, 0.0]));
    w.add_entity(first, e);
    assert!(w.has_component_manager(first, transform_manager_id()));

    // implicit cross-scene transfer
    w.add_entity(second, e);
    assert!(w.scene(e) == Some(second));
    assert!(!w.has_component_manager(first, transform_manager_id()));
    assert!(w.has_component_manager(second, transform_manager_id()));
}

#[test]
fn test_clear_entity() {
    let mut w: World<[f32; 2]> = World::new();
    let scene = w.new_scene();
    let parent = w.new_entity();
    let e = w.new_entity();
    let child = w.new_entity();

    w.add_child(parent, e).unwrap();
    w.add_child(e, child).unwrap();
    w.add_component(e, transform([1.0, 2.0]));
    w.add_entity(scene, parent);

    w.clear_entity(e);

    assert!(w.parent(e) == None);
    assert_eq!(w.depth(e), 0);
    assert!(w.children(e).is_empty());
    assert!(w.scene(e) == None);
    assert!(!w.has_component(e, transform_id()));
    // the child survives as a root of its own tree, still in the scene
    assert!(w.parent(child) == None);
    assert!(w.scene(child) == Some(scene));
}

#[test]
fn test_detach_without_parent_is_noop() {
    let mut w: World<[f32; 2]> = World::new();
    let a = w.new_entity();
    w.detach(a);
    assert!(w.parent(a) == None);
    assert_eq!(w.depth(a), 0);
}

#[test]
fn test_add_entity_twice_is_noop() {
    let mut w: World<[f32; 2]> = World::new();
    let scene = w.new_scene();
    let a = w.new_entity();
    assert!(w.add_entity(scene, a));
    assert!(!w.add_entity(scene, a));
    assert!(w.has_entity(scene, a));
    assert_eq!(w.scenes[scene].roots.len(), 1);
}
