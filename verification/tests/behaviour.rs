use ecs_hierarchy::bundle::Bundle;
use ecs_hierarchy::commands::Commands;
use ecs_hierarchy::entity::Entity;
use ecs_hierarchy::hierarchy::{validate_parent_has_component, ChildOf, Children};
use ecs_hierarchy::world::{RelationshipHookMode, World};

fn kids(world: &World, e: Entity) -> Vec<Entity> {
    match world.entity(e).get_children() {
        Some(c) => c.iter().copied().collect(),
        None => Vec::new(),
    }
}

fn parent_of(world: &World, e: Entity) -> Option<Entity> {
    world.entity(e).get_child_of().map(|c| c.parent)
}

#[test]
fn child_of_doc_example() {
    let mut world = World::new();
    let root = world.spawn_empty().id();
    let child1 = world.spawn(ChildOf { parent: root }.into_bundle()).id();
    let child2 = world.spawn(ChildOf { parent: root }.into_bundle()).id();
    let grandchild = world.spawn(ChildOf { parent: child1 }.into_bundle()).id();

    assert_eq!(&**world.entity(root).get_children().unwrap(), &[child1, child2]);
    assert_eq!(&**world.entity(child1).get_children().unwrap(), &[grandchild]);

    world.entity_mut(child2).remove_child_of();
    assert_eq!(&**world.entity(root).get_children().unwrap(), &[child1]);

    world.entity_mut(root).despawn();
    assert!(world.get_entity(root).is_err());
    assert!(world.get_entity(child1).is_err());
    assert!(world.get_entity(grandchild).is_err());
    assert!(world.get_entity(child2).is_ok());
}

#[test]
fn nested_with_children_doc_example() {
    let mut world = World::new();
    let mut child1 = Entity::placeholder();
    let mut child2 = Entity::placeholder();
    let mut grandchild = Entity::placeholder();
    let root = world
        .spawn_empty()
        .with_children(|p| {
            child1 = p
                .spawn_empty()
                .with_children(|p| {
                    grandchild = p.spawn_empty().id();
                })
                .id();
            child2 = p.spawn_empty().id();
        })
        .id();
    assert_eq!(&**world.entity(root).get_children().unwrap(), &[child1, child2]);
    assert_eq!(&**world.entity(child1).get_children().unwrap(), &[grandchild]);
    assert_eq!(parent_of(&world, grandchild), Some(child1));
}

#[test]
fn removing_last_child_removes_children() {
    let mut world = World::new();
    let parent = world.spawn_empty().id();
    let child = world.spawn(ChildOf { parent }.into_bundle()).id();
    assert!(world.entity(parent).get_children().is_some());
    world.entity_mut(child).remove_parent();
    assert!(world.entity(parent).get_children().is_none());
    assert_eq!(parent_of(&world, child), None);
}

#[test]
fn set_parent_moves_child() {
    let mut world = World::new();
    let a = world.spawn_empty().id();
    let b = world.spawn_empty().id();
    let c = world.spawn_empty().id();
    world.entity_mut(c).set_parent(a);
    assert_eq!(kids(&world, a), vec![c]);
    world.entity_mut(c).set_parent(b);
    assert_eq!(kids(&world, a), Vec::<Entity>::new());
    assert_eq!(kids(&world, b), vec![c]);
    assert_eq!(parent_of(&world, c), Some(b));
}

#[test]
fn reinsert_moves_child_to_end() {
    let mut world = World::new();
    let p = world.spawn_empty().id();
    let c1 = world.spawn(ChildOf { parent: p }.into_bundle()).id();
    let c2 = world.spawn(ChildOf { parent: p }.into_bundle()).id();
    assert_eq!(kids(&world, p), vec![c1, c2]);
    world.entity_mut(c1).insert(ChildOf { parent: p });
    assert_eq!(kids(&world, p), vec![c2, c1]);
}

#[test]
fn add_child_and_with_child() {
    let mut world = World::new();
    let p = world.spawn_empty().id();
    let c = world.spawn_empty().id();
    let next_index = world.spawned_count() as u32;
    world
        .entity_mut(p)
        .add_child(c)
        .with_child(Bundle::new().with_component(7));
    let spawned = Entity::from_raw(next_index);
    assert_eq!(kids(&world, p), vec![c, spawned]);
    assert_eq!(parent_of(&world, spawned), Some(p));
    assert!(world.entity(spawned).contains(7));
    assert!(!world.entity(spawned).contains(8));
}

#[test]
fn add_children_skips_self() {
    let mut world = World::new();
    let p = world.spawn_empty().id();
    let c = world.spawn_empty().id();
    world.entity_mut(p).add_children(&[p, c]);
    assert_eq!(kids(&world, p), vec![c]);
    assert_eq!(parent_of(&world, p), None);
}

#[test]
fn skip_and_run_if_not_linked_leave_children() {
    let mut world = World::new();
    let p = world.spawn_empty().id();
    let q = world.spawn_empty().id();
    let c = world.spawn(ChildOf { parent: p }.into_bundle()).id();
    world
        .entity_mut(c)
        .insert_with_relationship_hook_mode(ChildOf { parent: q }, RelationshipHookMode::RunIfNotLinked);
    assert_eq!(kids(&world, p), vec![c]);
    assert_eq!(kids(&world, q), Vec::<Entity>::new());
    assert_eq!(parent_of(&world, c), Some(q));
}

#[test]
fn despawn_cycle_terminates() {
    let mut world = World::new();
    let a = world.spawn_empty().id();
    let b = world.spawn_empty().id();
    let other = world.spawn_empty().id();
    world.entity_mut(a).insert(ChildOf { parent: b });
    world.entity_mut(b).insert(ChildOf { parent: a });
    assert_eq!(kids(&world, a), vec![b]);
    assert_eq!(kids(&world, b), vec![a]);
    assert!(world.despawn(a));
    assert!(!world.contains_entity(a));
    assert!(!world.contains_entity(b));
    assert!(world.contains_entity(other));
    assert!(!world.despawn(a));
}

#[test]
fn despawn_child_leaves_parent() {
    let mut world = World::new();
    let p = world.spawn_empty().id();
    let c1 = world.spawn(ChildOf { parent: p }.into_bundle()).id();
    let c2 = world.spawn(ChildOf { parent: p }.into_bundle()).id();
    let g = world.spawn(ChildOf { parent: c1 }.into_bundle()).id();
    world.despawn(c1);
    assert_eq!(kids(&world, p), vec![c2]);
    assert!(!world.contains_entity(g));
}

#[test]
fn nested_children_bundles() {
    let mut world = World::new();
    let root = world
        .spawn(Children::spawn(vec![
            Children::spawn(vec![Bundle::new(), Bundle::new()]),
            Bundle::new().with_component(3),
        ]))
        .id();
    let first = Entity::from_raw(root.index + 1);
    let second = Entity::from_raw(root.index + 4);
    assert_eq!(kids(&world, root), vec![first, second]);
    assert_eq!(
        kids(&world, first),
        vec![Entity::from_raw(root.index + 2), Entity::from_raw(root.index + 3)]
    );
    assert!(world.entity(second).contains(3));
    assert_eq!(world.spawned_count(), 5);
}

#[test]
fn commands_match_direct_calls() {
    let mut world = World::new();
    let a = world.spawn_empty().id();
    let b = world.spawn_empty().id();
    let mut commands = Commands::new(&world);
    let mut spawned = Entity::placeholder();
    commands
        .entity(a)
        .add_children(&[b])
        .with_child(Bundle::new())
        .with_children(|p| {
            spawned = p.spawn_empty().id();
        });
    let c = commands.spawn(Bundle::new()).id();
    commands.entity(c).set_parent(b);
    world.apply_commands(commands);

    let with_child = Entity::from_raw(2);
    assert_eq!(spawned, Entity::from_raw(3));
    assert_eq!(c, Entity::from_raw(4));
    assert_eq!(kids(&world, a), vec![b, with_child, spawned]);
    assert_eq!(kids(&world, b), vec![c]);

    let mut commands = Commands::new(&world);
    commands.entity(c).remove_parent();
    commands.entity(a).despawn();
    world.apply_commands(commands);
    assert!(world.contains_entity(c));
    assert!(!world.contains_entity(a));
    assert!(!world.contains_entity(b));
    assert!(!world.contains_entity(spawned));
}

#[test]
fn commands_skip_mode() {
    let mut world = World::new();
    let p = world.spawn_empty().id();
    let q = world.spawn_empty().id();
    let c = world.spawn(ChildOf { parent: p }.into_bundle()).id();
    let mut commands = Commands::new(&world);
    commands
        .entity(c)
        .insert_with_relationship_hook_mode(ChildOf { parent: q }, RelationshipHookMode::Skip);
    world.apply_commands(commands);
    assert_eq!(kids(&world, p), vec![c]);
    assert_eq!(parent_of(&world, c), Some(q));
}

#[test]
fn validate_parent_component() {
    let mut world = World::new();
    let with = world.spawn(Bundle::new().with_component(1)).id();
    let without = world.spawn_empty().id();
    let a = world.spawn(ChildOf { parent: with }.into_bundle()).id();
    let b = world.spawn(ChildOf { parent: without }.into_bundle()).id();
    let lone = world.spawn_empty().id();

    assert!(validate_parent_has_component(&world, a, 1, "my_game::Position", None).is_none());
    assert!(validate_parent_has_component(&world, lone, 1, "my_game::Position", None).is_none());
    let w = validate_parent_has_component(
        &world,
        b,
        1,
        "my_game::components::Position",
        Some(String::from("src/main.rs:3:4")),
    )
    .unwrap();
    assert_eq!(w.entity, b);
    assert_eq!(w.short_name, "Position");
    assert_eq!(w.caller, Some(String::from("src/main.rs:3:4")));

    let w = validate_parent_has_component(&world, b, 1, "alloc::vec::Vec<core::option::Option<u32>>", None)
        .unwrap();
    assert_eq!(w.short_name, "Vec<Option<u32>>");
}

#[test]
fn child_of_from_world_is_placeholder() {
    let mut world = World::new();
    let c = ChildOf::from_world(&mut world);
    assert_eq!(c.parent, Entity::placeholder());
    assert_eq!(c.parent.index(), Entity::PLACEHOLDER_INDEX);
}

#[test]
fn children_iterates_in_order() {
    let mut world = World::new();
    let p = world.spawn_empty().id();
    let c1 = world.spawn(ChildOf { parent: p }.into_bundle()).id();
    let c2 = world.spawn(ChildOf { parent: p }.into_bundle()).id();
    let children = world.entity(p).get_children().unwrap();
    let listed: Vec<Entity> = children.into_iter().copied().collect();
    assert_eq!(listed, vec![c1, c2]);
    assert_eq!(children.len(), 2);
    assert_eq!(children.as_slice(), &[c1, c2]);
    let default_children: Children = Default::default();
    assert_eq!(default_children.len(), 0);
}

#[test]
fn set_parent_to_dead_entity_changes_nothing() {
    let mut world = World::new();
    let q = world.spawn_empty().id();
    let dead = world.spawn_empty().id();
    let s = world.spawn(ChildOf { parent: q }.into_bundle()).id();
    world.despawn(dead);
    world.entity_mut(s).set_parent(dead);
    assert_eq!(parent_of(&world, s), Some(q));
    assert_eq!(kids(&world, q), vec![s]);

    let mut commands = Commands::new(&world);
    commands.entity(s).set_parent(dead);
    world.apply_commands(commands);
    assert_eq!(parent_of(&world, s), Some(q));
    assert_eq!(kids(&world, q), vec![s]);
}

#[test]
fn queued_set_parent_checks_at_apply_time() {
    let mut world = World::new();
    let p = world.spawn_empty().id();
    let s = world.spawn_empty().id();
    let mut commands = Commands::new(&world);
    commands.entity(s).set_parent(p);
    commands.entity(p).despawn();
    world.apply_commands(commands);
    assert!(!world.contains_entity(s));

    let p2 = world.spawn_empty().id();
    let s2 = world.spawn_empty().id();
    let mut commands = Commands::new(&world);
    commands.entity(p2).despawn();
    commands.entity(s2).set_parent(p2);
    world.apply_commands(commands);
    assert_eq!(parent_of(&world, s2), None);
}

#[test]
fn add_children_twice_is_once() {
    let mut world = World::new();
    let p = world.spawn_empty().id();
    let x = world.spawn(ChildOf { parent: p }.into_bundle()).id();
    let a = world.spawn_empty().id();
    let b = world.spawn_empty().id();
    world.entity_mut(p).add_children(&[a, b]);
    assert_eq!(kids(&world, p), vec![x, a, b]);
    world.entity_mut(p).add_children(&[a, b]);
    assert_eq!(kids(&world, p), vec![x, a, b]);
    world.entity_mut(p).add_children(&[x]);
    assert_eq!(kids(&world, p), vec![a, b, x]);
}

#[test]
fn set_then_remove_parent_restores() {
    let mut world = World::new();
    let p = world.spawn_empty().id();
    let c = world.spawn(ChildOf { parent: p }.into_bundle()).id();
    let s = world.spawn_empty().id();
    world.entity_mut(s).set_parent(p).remove_parent();
    assert_eq!(kids(&world, p), vec![c]);
    assert_eq!(parent_of(&world, s), None);
}

#[test]
fn spawning_empty_children_keeps_component() {
    let mut world = World::new();
    let p = world.spawn(Children::spawn(vec![])).id();
    let listed = world.entity(p).get_children();
    assert!(listed.is_some());
    assert_eq!(listed.unwrap().len(), 0);
    let c = world.spawn(ChildOf { parent: p }.into_bundle()).id();
    assert_eq!(kids(&world, p), vec![c]);
    world.entity_mut(c).remove_parent();
    assert!(world.entity(p).get_children().is_none());
}

#[test]
fn plain_spawn_has_no_children_component() {
    let mut world = World::new();
    let p = world.spawn(Bundle::new()).id();
    assert!(world.entity(p).get_children().is_none());
}

#[test]
fn add_children_twice_with_repeats_and_parent() {
    let mut world = World::new();
    let q = world.spawn_empty().id();
    let p = world.spawn(ChildOf { parent: q }.into_bundle()).id();
    let a = world.spawn_empty().id();
    let b = world.spawn_empty().id();
    world.entity_mut(p).add_children(&[a, p, b, a]);
    assert_eq!(kids(&world, p), vec![b, a]);
    assert_eq!(parent_of(&world, p), None);
    assert!(world.entity(q).get_children().is_none());
    world.entity_mut(p).add_children(&[a, p, b, a]);
    assert_eq!(kids(&world, p), vec![b, a]);
    assert_eq!(parent_of(&world, p), None);
    assert_eq!(parent_of(&world, a), Some(p));
    assert_eq!(parent_of(&world, b), Some(p));
}

#[test]
fn queued_despawn_of_dead_entity_is_harmless() {
    let mut world = World::new();
    let p = world.spawn_empty().id();
    let c = world.spawn(ChildOf { parent: p }.into_bundle()).id();
    world.despawn(c);
    let mut commands = Commands::new(&world);
    commands.entity(c).despawn();
    world.apply_commands(commands);
    assert!(world.get_entity(p).is_ok());
    assert!(world.entity(p).get_children().is_none());
}

#[test]
fn add_children_takes_them_from_former_parents() {
    let mut world = World::new();
    let q = world.spawn_empty().id();
    let a = world.spawn(ChildOf { parent: q }.into_bundle()).id();
    let r = world.spawn_empty().id();
    let b = world.spawn(ChildOf { parent: r }.into_bundle()).id();
    let k = world.spawn(ChildOf { parent: r }.into_bundle()).id();
    let p = world.spawn_empty().id();
    let x = world.spawn(ChildOf { parent: p }.into_bundle()).id();
    world.entity_mut(p).add_children(&[a, b]);
    assert_eq!(kids(&world, p), vec![x, a, b]);
    assert_eq!(parent_of(&world, a), Some(p));
    assert_eq!(parent_of(&world, b), Some(p));
    assert!(world.entity(q).get_children().is_none());
    assert_eq!(kids(&world, r), vec![k]);
    assert_eq!(parent_of(&world, k), Some(r));
}
