use scene_graph::Component;
use scene_graph::Id;
use scene_graph::World;

fn transform_id() -> Id {
    Id::of(1, 1)
}

fn transform_manager_id() -> Id {
    Id::of(100, 100)
}

fn transform(position: [f32; 2]) -> Component<[f32; 2]> {
    Component::new(transform_id(), transform_manager_id(), 0, position)
}

fn some_component_id() -> Id {
    Id::of(2, 2)
}

fn some_component_manager_id() -> Id {
    Id::of(200, 200)
}

fn some_component(text: &str) -> Component<String> {
    Component::new(some_component_id(), some_component_manager_id(), 9999, text.to_string())
}

#[test]
fn scene_test_scene() {
    let mut w: World<String> = World::new();
    let scene = w.new_scene();
    let grandparent = w.new_entity();
    let parent = w.new_entity();
    let child = w.new_entity();

    w.add_component(grandparent, some_component("Hello, world!"));
    w.add_component(parent, some_component("Hello, world!"));
    w.add_component(child, some_component("Hello, world!"));

    w.add_child(parent, child).unwrap();
    w.add_child(grandparent, parent).unwrap();

    w.add_entity(scene, grandparent);

    assert!(w.has_component(grandparent, some_component_id()) == true);
    assert!(w.has_component(parent, some_component_id()) == true);
    assert!(w.has_component(child, some_component_id()) == true);

    let c = w.component(grandparent, some_component_id()).unwrap();
    assert!(c.payload == "Hello, world!".to_string());

    assert!(w.has_entity(scene, grandparent) == true);
    assert!(w.has_entity(scene, parent) == true);
    assert!(w.has_entity(scene, child) == true);
}

#[test]
fn test_scene_components() {
    let mut w: World<[f32; 2]> = World::new();
    let scene = w.new_scene();

    let entity = w.new_entity();
    w.add_component(entity, transform([0.0, 0.0]));

    w.add_entity(scene, entity);

    assert!(w.has_component(entity, transform_id()));
    assert!(w.has_component_manager(scene, transform_manager_id()));
    {
        let transform_manager = w.component_manager(scene, transform_manager_id()).unwrap();
        assert!(!transform_manager.is_empty());
    }
    {
        assert_eq!(w.component(entity, transform_id()).unwrap().payload, [0f32; 2]);
        let prev = w.set_payload(entity, transform_id(), [1f32; 2]);
        assert_eq!(prev, Some([0f32; 2]));
        assert_eq!(w.component(entity, transform_id()).unwrap().payload, [1f32; 2]);
    }
}

#[test]
fn test_scene_components_remove() {
    let mut w: World<[f32; 2]> = World::new();
    let scene = w.new_scene();

    let entity = w.new_entity();
    w.add_component(entity, transform([0.0, 0.0]));

    w.add_entity(scene, entity);
    w.remove_entity(scene, entity);

    w.remove_component(entity, transform_id());

    assert!(!w.has_component(entity, transform_id()));
    assert!(!w.has_component_manager(scene, transform_manager_id()));
}

#[test]
fn test_scene_init() {
    let mut w: World<[f32; 2]> = World::new();
    let scene = w.new_scene();
    let entity = w.new_entity();
    w.add_component(entity, transform([0.0, 0.0]));
    w.add_entity(scene, entity);
    w.init(scene);
}

#[test]
fn test_tree_scene_managers() {
    let mut w: World<[f32; 2]> = World::new();
    let scene = w.new_scene();
    let grandparent = w.new_entity();
    let parent = w.new_entity();
    let child = w.new_entity();

    w.add_component(grandparent, transform([0.0, 0.0]));
    w.add_component(parent, transform([1.0, 0.0]));
    w.add_component(child, transform([2.0, 0.0]));

    w.add_child(grandparent, parent).unwrap();
    w.add_child(parent, child).unwrap();

    w.add_entity(scene, grandparent);

    assert!(w.has_entity(scene, grandparent));
    assert!(w.has_entity(scene, parent));
    assert!(w.has_entity(scene, child));
    assert_eq!(w.depth(parent), 1);
    assert_eq!(w.depth(child), 2);

    assert!(w.has_component_manager(scene, transform_manager_id()));
    let manager = w.component_manager(scene, transform_manager_id()).unwrap();
    assert_eq!(manager.member_count(), 3);
}

#[test]
fn test_remove_entity_prunes_managers() {
    let mut w: World<[f32; 2]> = World::new();
    let scene = w.new_scene();
    let grandparent = w.new_entity();
    let parent = w.new_entity();
    let child = w.new_entity();

    w.add_component(grandparent, transform([0.0, 0.0]));
    w.add_component(parent, transform([1.0, 0.0]));
    w.add_component(child, transform([2.0, 0.0]));

    w.add_child(grandparent, parent).unwrap();
    w.add_child(parent, child).unwrap();
    w.add_entity(scene, grandparent);

    w.remove_entity(scene, grandparent);

    assert!(!w.has_entity(scene, grandparent));
    assert!(!w.has_entity(scene, parent));
    assert!(!w.has_entity(scene, child));
    assert!(!w.has_component_manager(scene, transform_manager_id()));
    // the hierarchy survives scene removal
    assert!(w.parent(parent) == Some(grandparent));
    assert!(w.parent(child) == Some(parent));
}

#[test]
fn test_manager_roundtrip() {
    let mut w: World<[f32; 2]> = World::new();
    let scene = w.new_scene();
    let entity = w.new_entity();
    w.add_entity(scene, entity);

    assert!(!w.has_component_manager(scene, transform_manager_id()));

    // the first component of a new type makes its manager appear, non-empty
    w.add_component(entity, transform([0.0, 0.0]));
    assert!(w.has_component_manager(scene, transform_manager_id()));
    assert!(!w.component_manager(scene, transform_manager_id()).unwrap().is_empty());

    // removing the last component of the type destroys the manager
    w.remove_component(entity, transform_id());
    assert!(!w.has_component_manager(scene, transform_manager_id()));
}

#[test]
fn test_add_component_idempotent() {
    let mut w: World<[f32; 2]> = World::new();
    let entity = w.new_entity();

    assert!(w.add_component(entity, transform([1.0, 1.0])));
    // the second component of the same type is ignored: the first one wins
    assert!(!w.add_component(entity, transform([9.0, 9.0])));

    assert_eq!(w.component(entity, transform_id()).unwrap().payload, [1f32, 1f32]);
    assert_eq!(w.entities[entity].components.len(), 1);
}

#[test]
fn test_missing_component_lookups() {
    let mut w: World<[f32; 2]> = World::new();
    let entity = w.new_entity();

    assert!(!w.has_component(entity, transform_id()));
    assert!(w.component(entity, transform_id()).is_none());
    assert!(w.remove_component(entity, transform_id()).is_none());
    assert!(w.set_payload(entity, transform_id(), [3.0, 3.0]).is_none());
}

#[test]
fn test_removed_component_is_returned() {
    let mut w: World<[f32; 2]> = World::new();
    let entity = w.new_entity();
    w.add_component(entity, transform([4.0, 5.0]));

    let removed = w.remove_component(entity, transform_id()).unwrap();
    assert_eq!(removed.payload, [4.0, 5.0]);
    assert!(removed.entity().is_none());
    assert!(!w.has_component(entity, transform_id()));
}

#[test]
fn test_clear_of_fresh_scene() {
    let mut w: World<[f32; 2]> = World::new();
    let scene = w.new_scene();
    w.clear(scene);
    assert!(!w.scenes[scene].initted());
    assert!(w.scenes[scene].roots.is_empty());
    assert!(w.scenes[scene].managers.is_empty());
}
