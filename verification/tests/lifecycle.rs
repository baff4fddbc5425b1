use scene_graph::Component;
use scene_graph::Id;
use scene_graph::Plugin;
use scene_graph::World;

fn transform_id() -> Id {
    Id::of(1, 1)
}

fn transform_manager_id() -> Id {
    Id::of(100, 100)
}

fn transform(position: [f32; 2]) -> Component<[f32; 2]> {
    Component::new(transform_id(), transform_manager_id(), 5, position)
}

fn physics_id() -> Id {
    Id::of(3, 3)
}

fn physics_manager_id() -> Id {
    Id::of(300, 300)
}

fn physics(mass: [f32; 2]) -> Component<[f32; 2]> {
    Component::new(physics_id(), physics_manager_id(), 1, mass)
}

#[test]
fn test_init_idempotent() {
    let mut w: World<[f32; 2]> = World::new();
    let scene = w.new_scene();
    let entity = w.new_entity();
    w.add_component(entity, transform([0.0, 0.0]));
    w.add_entity(scene, entity);

    assert!(!w.scenes[scene].initted());
    w.init(scene);
    assert!(w.scenes[scene].initted());
    assert_eq!(w.component_manager(scene, transform_manager_id()).unwrap().init_calls(), 1);

    // a second init performs no additional init callbacks
    w.init(scene);
    assert_eq!(w.component_manager(scene, transform_manager_id()).unwrap().init_calls(), 1);
}

#[test]
fn test_init_sorts_managers_by_order() {
    let mut w: World<[f32; 2]> = World::new();
    let scene = w.new_scene();
    let entity = w.new_entity();
    w.add_entity(scene, entity);
    w.add_component(entity, transform([0.0, 0.0]));
    w.add_component(entity, physics([1.0, 1.0]));

    w.init(scene);

    let managers = &w.scenes[scene].managers;
    assert_eq!(managers.len(), 2);
    assert!(managers[0].order() <= managers[1].order());
    assert_eq!(managers[0].type_id(), physics_manager_id());
    assert_eq!(managers[1].type_id(), transform_manager_id());
}

#[test]
fn test_late_manager_gets_init() {
    let mut w: World<[f32; 2]> = World::new();
    let scene = w.new_scene();
    let entity = w.new_entity();
    w.add_entity(scene, entity);
    w.init(scene);

    // a manager created after the scene initialized gets its own init call
    w.add_component(entity, transform([0.0, 0.0]));
    assert_eq!(w.component_manager(scene, transform_manager_id()).unwrap().init_calls(), 1);
}

#[test]
fn test_late_manager_creation_resorts() {
    let mut w: World<[f32; 2]> = World::new();
    let scene = w.new_scene();
    let entity = w.new_entity();
    w.add_entity(scene, entity);
    w.init(scene);

    // transform (order 5) arrives before physics (order 1); each creation
    // after init re-sorts the managers
    w.add_component(entity, transform([0.0, 0.0]));
    w.add_component(entity, physics([1.0, 1.0]));

    let managers = &w.scenes[scene].managers;
    assert_eq!(managers.len(), 2);
    assert_eq!(managers[0].type_id(), physics_manager_id());
    assert_eq!(managers[1].type_id(), transform_manager_id());
}

#[test]
fn test_update_ticks_and_counters() {
    let mut w: World<[f32; 2]> = World::new();
    let scene = w.new_scene();
    let entity = w.new_entity();
    w.add_component(entity, transform([0.0, 0.0]));
    w.add_entity(scene, entity);
    w.init(scene);

    w.update(scene);
    w.update(scene);

    assert_eq!(w.scenes[scene].ticks(), 2);
    let manager = w.component_manager(scene, transform_manager_id()).unwrap();
    assert_eq!(manager.update_calls(), 2);
    assert_eq!(manager.init_calls(), 1);
}

#[test]
fn test_plugins_wrap_the_tick() {
    let mut w: World<[f32; 2]> = World::new();
    let scene = w.new_scene();
    let plugin_id = Id::of(7, 7);

    assert!(w.add_plugin(scene, Plugin::new(plugin_id, 3)));
    // a second plugin with the same identity is ignored
    assert!(!w.add_plugin(scene, Plugin::new(plugin_id, 4)));

    w.init(scene);
    w.update(scene);

    let p = &w.scenes[scene].plugins[0];
    assert_eq!(p.init_calls, 1);
    assert_eq!(p.before_calls, 1);
    assert_eq!(p.after_calls, 1);

    let removed = w.remove_plugin(scene, plugin_id).unwrap();
    assert_eq!(removed.get_id(), plugin_id);
    assert!(removed.get_scene().is_none());
    assert!(w.scenes[scene].plugins.is_empty());
}

#[test]
fn test_clear_resets_scene() {
    let mut w: World<[f32; 2]> = World::new();
    let scene = w.new_scene();
    let root = w.new_entity();
    let child = w.new_entity();
    w.add_child(root, child).unwrap();
    w.add_component(child, transform([0.0, 0.0]));
    w.add_entity(scene, root);
    w.add_plugin(scene, Plugin::new(Id::of(7, 7), 0));
    w.init(scene);

    w.clear(scene);

    assert!(!w.scenes[scene].initted());
    assert_eq!(w.scenes[scene].ticks(), 0);
    assert!(w.scenes[scene].roots.is_empty());
    assert!(w.scenes[scene].managers.is_empty());
    assert!(w.scenes[scene].plugins.is_empty());
    assert!(w.scene(root).is_none());
    assert!(w.scene(child).is_none());
    // the hierarchy and the components survive a scene clear
    assert!(w.parent(child) == Some(root));
    assert!(w.has_component(child, transform_id()));
}

#[test]
fn test_id_accessors() {
    let id = Id::of(42, 7);
    assert_eq!(id.get_id(), 42);
    assert_eq!(id.get_type_id(), 7);
    assert!(Id::of(1, 1) == Id::of(1, 1));
    assert!(Id::of(1, 1) != Id::of(1, 2));
}
