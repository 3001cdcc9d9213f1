use ecs_hierarchy::bundle::Bundle;
use ecs_hierarchy::entity::Entity;
use ecs_hierarchy::hierarchy::{ChildOf, Children};
use ecs_hierarchy::world::{RelationshipHookMode, World};

#[derive(PartialEq, Eq, Debug)]
struct Node {
    entity: Entity,
    children: Vec<Node>,
}

impl Node {
    fn new(entity: Entity) -> Self {
        Self {
            entity,
            children: Vec::new(),
        }
    }

    fn new_with(entity: Entity, children: Vec<Node>) -> Self {
        Self { entity, children }
    }
}

fn get_hierarchy(world: &World, entity: Entity) -> Node {
    Node {
        entity,
        children: world
            .entity(entity)
            .get_children()
            .map_or_else(Default::default, |c| {
                c.iter().map(|e| get_hierarchy(world, *e)).collect()
            }),
    }
}

#[test]
fn hierarchy() {
    let mut world = World::new();
    let root = world.spawn_empty().id();
    let child1 = world.spawn(ChildOf { parent: root }.into_bundle()).id();
    let grandchild = world.spawn(ChildOf { parent: child1 }.into_bundle()).id();
    let child2 = world.spawn(ChildOf { parent: root }.into_bundle()).id();

    // Spawn
    let hierarchy = get_hierarchy(&world, root);
    assert_eq!(
        hierarchy,
        Node::new_with(
            root,
            vec![
                Node::new_with(child1, vec![Node::new(grandchild)]),
                Node::new(child2)
            ]
        )
    );

    // Removal
    world.entity_mut(child1).remove_child_of();
    let hierarchy = get_hierarchy(&world, root);
    assert_eq!(hierarchy, Node::new_with(root, vec![Node::new(child2)]));

    // Insert
    world.entity_mut(child1).insert(ChildOf { parent: root });
    let hierarchy = get_hierarchy(&world, root);
    assert_eq!(
        hierarchy,
        Node::new_with(
            root,
            vec![
                Node::new(child2),
                Node::new_with(child1, vec![Node::new(grandchild)])
            ]
        )
    );

    // Recursive Despawn
    world.entity_mut(root).despawn();
    assert!(world.get_entity(root).is_err());
    assert!(world.get_entity(child1).is_err());
    assert!(world.get_entity(child2).is_err());
    assert!(world.get_entity(grandchild).is_err());
}

#[test]
fn with_children() {
    let mut world = World::new();
    let mut child1 = Entity::placeholder();
    let mut child2 = Entity::placeholder();
    let root = world
        .spawn_empty()
        .with_children(|p| {
            child1 = p.spawn_empty().id();
            child2 = p.spawn_empty().id();
        })
        .id();

    let hierarchy = get_hierarchy(&world, root);
    assert_eq!(
        hierarchy,
        Node::new_with(root, vec![Node::new(child1), Node::new(child2)])
    );
}

#[test]
fn add_children() {
    let mut world = World::new();
    let child1 = world.spawn_empty().id();
    let child2 = world.spawn_empty().id();
    let root = world.spawn_empty().add_children(&[child1, child2]).id();

    let hierarchy = get_hierarchy(&world, root);
    assert_eq!(
        hierarchy,
        Node::new_with(root, vec![Node::new(child1), Node::new(child2)])
    );
}

#[test]
fn self_parenting_invalid() {
    let mut world = World::new();
    let id = world.spawn_empty().id();
    world.entity_mut(id).insert(ChildOf { parent: id });
    assert!(
        world.entity(id).get_child_of().is_none(),
        "invalid ChildOf relationships should self-remove"
    );
}

#[test]
fn missing_parent_invalid() {
    let mut world = World::new();
    let parent = world.spawn_empty().id();
    world.entity_mut(parent).despawn();
    let id = world.spawn(ChildOf { parent }.into_bundle()).id();
    assert!(
        world.entity(id).get_child_of().is_none(),
        "invalid ChildOf relationships should self-remove"
    );
}

#[test]
fn reinsert_same_parent() {
    let mut world = World::new();
    let parent = world.spawn_empty().id();
    let id = world.spawn(ChildOf { parent }.into_bundle()).id();
    world.entity_mut(id).insert(ChildOf { parent });
    assert_eq!(
        Some(&ChildOf { parent }),
        world.entity(id).get_child_of(),
        "ChildOf should still be there"
    );
}

#[test]
fn spawn_children() {
    let mut world = World::new();
    let id = world
        .spawn(Children::spawn(vec![Bundle::new(), Bundle::new()]))
        .id();
    assert_eq!(world.entity(id).get_children().unwrap().len(), 2,);
}

#[test]
fn child_replace_hook_skip() {
    let mut world = World::new();
    let parent = world.spawn_empty().id();
    let other = world.spawn_empty().id();
    let child = world.spawn(ChildOf { parent }.into_bundle()).id();
    world.entity_mut(child).insert_with_relationship_hook_mode(
        ChildOf { parent: other },
        RelationshipHookMode::Skip,
    );
    assert_eq!(
        &**world.entity(parent).get_children().unwrap(),
        &[child],
        "Children should still have the old value, as on_insert/on_replace didn't run"
    );
}
