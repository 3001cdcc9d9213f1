use vstd::prelude::*;
use crate::entity::{Entity, ComponentId};
use crate::world::{first_position, World, EntityWorldMut, RelationshipHookMode};
use crate::bundle::{Bundle, bundle_count, nested_ok};
use crate::commands::{Command, Commands, EntityCommands};

verus! {

/// Stores the parent entity of this child entity.
#[derive(Clone, Copy, PartialEq, Eq, Structural, Debug)]
pub struct ChildOf {
    /// The parent entity of this child entity.
    pub parent: Entity,
}

/// Tracks which entities are children of this parent entity.
#[derive(Debug)]
pub struct Children(pub(crate) Vec<Entity>);

impl View for Children {
    type V = Seq<Entity>;

    closed spec fn view(&self) -> Seq<Entity> {
        self.0@
    }
}


impl Children {
    /// The listed entities, in the order in which they became children.
    pub fn as_slice(&self) -> (r: &[Entity])
        ensures
            r@ == self@,
    {
        self.0.as_slice()
    }

    /// The number of children.
    pub fn len(&self) -> (r: usize)
        ensures
            r == self@.len(),
    {
        self.0.len()
    }

    /// Builds a list from the given entities.
    pub(crate) fn from_vec(v: Vec<Entity>) -> (r: Children)
        ensures
            r@ == v@,
    {
        Children(v)
    }

    /// Appends `e`.
    pub(crate) fn push(&mut self, e: Entity)
        ensures
            final(self)@ == old(self)@.push(e),
    {
        self.0.push(e);
    }

    /// Removes the first occurrence of `e`, if any.
    pub(crate) fn remove_value(&mut self, e: Entity)
        ensures
            final(self)@ == old(self)@.remove_value(e),
    {
        match first_position(&self.0, e) {
            Some(k) => {
                self.0.remove(k);
            },
            None => {},
        }
    }
}


impl Children {
    /// A bundle that spawns an entity with a `Children` component and no other, then
    /// each bundle of `related` as a child of it.
    pub fn spawn(related: Vec<Bundle>) -> (b: Bundle)
        ensures
            b.components@ == Seq::<u64>::empty(),
            b.child_of is None,
            b.related@ == related@,
            b.children_component,
    {
        Bundle { components: Vec::new(), child_of: None, related, children_component: true }
    }
}

impl ChildOf {
    /// The value a world gives a `ChildOf` it has to make up: one that points to the
    /// placeholder entity.
    pub fn from_world(_world: &mut World) -> (c: ChildOf)
        ensures
            c.parent.index == Entity::PLACEHOLDER_INDEX,
            *final(_world) == *old(_world),
    {
        ChildOf { parent: Entity::placeholder() }
    }
}

impl Default for Children {
    fn default() -> (c: Children)
        ensures
            c@ == Seq::<Entity>::empty(),
    {
        Children(Vec::new())
    }
}

impl core::ops::Deref for Children {
    type Target = [Entity];

    fn deref(&self) -> (r: &[Entity])
        ensures
            r@ == self@,
    {
        self.0.as_slice()
    }
}

impl<'a> IntoIterator for &'a Children {
    type Item = &'a Entity;
    type IntoIter = core::slice::Iter<'a, Entity>;

    fn into_iter(self) -> (r: core::slice::Iter<'a, Entity>)
        ensures
            vstd::std_specs::slice::into_iter_elts(r) == self@,
    {
        broadcast use vstd::std_specs::slice::axiom_spec_slice_iter;
        let s = self.0.as_slice();
        let r = s.iter();
        assert(vstd::std_specs::slice::into_iter_elts(r) =~= s@);
        r
    }
}

/// Spawns children of one entity: what `with_children` hands to its closure. It
/// holds the world while the closure runs.
pub struct ChildSpawner {
    world: World,
    target: Entity,
}

impl ChildSpawner {
    /// The entity whose children this spawns.
    pub closed spec fn spawn_target(&self) -> Entity {
        self.target
    }

    /// The world this spawns into.
    pub closed spec fn held_world(&self) -> World {
        self.world
    }

    /// The entity whose children this spawns.
    pub fn target_entity(&self) -> (r: Entity)
        ensures
            r == self.spawn_target(),
    {
        self.target
    }

    /// Spawns `bundle` as a child of the target entity.
    pub fn spawn(&mut self, bundle: Bundle) -> (r: EntityWorldMut<'_>)
        requires
            old(self).held_world()@.next + bundle_count(bundle) <= Entity::PLACEHOLDER_INDEX,
            bundle.child_of is None,
            nested_ok(bundle.related@),
        ensures
            r.entity == old(self).held_world()@.next_entity(),
            r.world@ == old(self).held_world()@.spawn_bundle(bundle, Some(old(self).spawn_target())),
            final(self).spawn_target() == old(self).spawn_target(),
            final(self).held_world() == *final(r.world),
    {
        let e = self.world.spawn_child(&bundle, self.target);
        EntityWorldMut { world: &mut self.world, entity: e }
    }

    /// Spawns an entity with no other component as a child of the target entity.
    pub fn spawn_empty(&mut self) -> (r: EntityWorldMut<'_>)
        requires
            old(self).held_world()@.next + 1 <= Entity::PLACEHOLDER_INDEX,
        ensures
            r.entity == old(self).held_world()@.next_entity(),
            r.world@ == old(self).held_world()@.spawn_with_parent(Set::empty(), Some(old(self).spawn_target())),
            final(self).spawn_target() == old(self).spawn_target(),
            final(self).held_world() == *final(r.world),
    {
        let b = Bundle::new();
        assert(b.components@.to_set() =~= Set::<u64>::empty());
        self.spawn(b)
    }
}


impl<'w> EntityWorldMut<'w> {
    /// Spawns children of this entity (with a [`ChildOf`] relationship) by taking a
    /// function that operates on a [`ChildSpawner`].
    pub fn with_children(&mut self, func: impl FnOnce(&mut ChildSpawner)) -> (r: &mut Self)
        requires
            forall|s: &mut ChildSpawner|
                s.spawn_target() == old(self).entity && s.held_world() == *old(self).world ==> call_requires(func, (s,)),
        ensures
            r.entity == old(self).entity,
            exists|s: &mut ChildSpawner| #![auto]
                call_ensures(func, (s,), ())
                && s.spawn_target() == old(self).entity
                && s.held_world() == *old(self).world
                && *r.world == final(s).held_world(),
            *final(self) == *final(r),
            *final(r.world) == *final(old(self).world),
    {
        let mut world = World::new();
        std::mem::swap(&mut world, self.world);
        let mut spawner = ChildSpawner { world, target: self.entity };
        let sp = &mut spawner;
        assert(sp.spawn_target() == old(self).entity && sp.held_world() == *old(self).world);
        assert(call_requires(func, (sp,)));
        func(sp);
        let ChildSpawner { world: done, target: _ } = spawner;
        *self.world = done;
        self
    }

    /// Adds the given children to this entity.
    pub fn add_children(&mut self, children: &[Entity]) -> (r: &mut Self)
        requires
            forall|i: int| 0 <= i < children@.len() ==> old(self).world@.alive(#[trigger] children@[i]),
        ensures
            r.entity == old(self).entity,
            r.world@ == old(self).world@.add_children(old(self).entity, children@),
            *final(self) == *final(r),
            *final(r.world) == *final(old(self).world),
    {
        self.world.add_children_to(self.entity, children);
        self
    }

    /// Adds the given child to this entity.
    pub fn add_child(&mut self, child: Entity) -> (r: &mut Self)
        requires
            old(self).world@.alive(child),
        ensures
            r.entity == old(self).entity,
            r.world@ == old(self).world@.add_children(old(self).entity, seq![child]),
            *final(self) == *final(r),
            *final(r.world) == *final(old(self).world),
    {
        let mut one: Vec<Entity> = Vec::new();
        one.push(child);
        assert(one@ =~= seq![child]);
        self.add_children(one.as_slice())
    }

    /// Spawns the passed bundle and adds it to this entity as a child.
    pub fn with_child(&mut self, bundle: Bundle) -> (r: &mut Self)
        requires
            old(self).world@.next + bundle_count(bundle) <= Entity::PLACEHOLDER_INDEX,
            bundle.child_of is None,
            nested_ok(bundle.related@),
        ensures
            r.entity == old(self).entity,
            r.world@ == old(self).world@.spawn_bundle(bundle, Some(old(self).entity)),
            *final(self) == *final(r),
            *final(r.world) == *final(old(self).world),
    {
        let parent = self.id();
        self.world.spawn_child(&bundle, parent);
        self
    }

    /// Removes the [`ChildOf`] component, if it exists.
    pub fn remove_parent(&mut self) -> (r: &mut Self)
        requires
            old(self).world@.alive(old(self).entity),
        ensures
            r.entity == old(self).entity,
            r.world@ == old(self).world@.remove_parent(old(self).entity),
            *final(self) == *final(r),
            *final(r.world) == *final(old(self).world),
    {
        self.remove_child_of()
    }

    /// Inserts the [`ChildOf`] component with the given `parent` entity, if that
    /// entity exists; otherwise changes nothing.
    pub fn set_parent(&mut self, parent: Entity) -> (r: &mut Self)
        requires
            old(self).world@.alive(old(self).entity),
        ensures
            r.entity == old(self).entity,
            r.world@ == old(self).world@.attach_if_alive(old(self).entity, parent),
            *final(self) == *final(r),
            *final(r.world) == *final(old(self).world),
    {
        if self.world.contains_entity(parent) {
            self.insert(ChildOf { parent })
        } else {
            self
        }
    }
}


/// A copy of a list of entities.
fn copy_entities(v: &[Entity]) -> (r: Vec<Entity>)
    ensures
        r@ == v@,
{
    let mut r: Vec<Entity> = Vec::new();
    let mut i: usize = 0;
    while i < v.len()
        invariant
            i <= v@.len(),
            r@ == v@.take(i as int),
        decreases v@.len() - i,
    {
        r.push(v[i]);
        i = i + 1;
        assert(r@ =~= v@.take(i as int));
    }
    assert(v@.take(v@.len() as int) =~= v@);
    r
}

/// Queues the spawning of children of one entity: what `EntityCommands::with_children`
/// hands to its closure. It holds the command queue while the closure runs.
pub struct ChildSpawnerCommands {
    commands: Commands,
    target: Entity,
}

impl ChildSpawnerCommands {
    /// The entity whose children this queues.
    pub closed spec fn spawn_target(&self) -> Entity {
        self.target
    }

    /// The command queue this adds to.
    pub closed spec fn held_commands(&self) -> Commands {
        self.commands
    }

    /// The entity whose children this spawns.
    pub fn target_entity(&self) -> (r: Entity)
        ensures
            r == self.spawn_target(),
    {
        self.target
    }

    /// Queues spawning `bundle` as a child of the target entity.
    pub fn spawn(&mut self, bundle: Bundle) -> (r: EntityCommands<'_>)
        requires
            old(self).held_commands().reserved() + bundle_count(bundle) <= Entity::PLACEHOLDER_INDEX,
        ensures
            r.entity.index == old(self).held_commands().reserved(),
            r.commands.base() == old(self).held_commands().base(),
            r.commands.reserved() == old(self).held_commands().reserved() + bundle_count(bundle),
            r.commands.queued() == old(self).held_commands().queued().push(
                Command::Spawn { bundle, under: Some(old(self).spawn_target()) },
            ),
            final(self).spawn_target() == old(self).spawn_target(),
            final(self).held_commands() == *final(r.commands),
    {
        let e = self.commands.push_spawn(bundle, Some(self.target));
        EntityCommands { commands: &mut self.commands, entity: e }
    }

    /// Queues spawning an entity with no other component as a child of the target.
    pub fn spawn_empty(&mut self) -> (r: EntityCommands<'_>)
        requires
            old(self).held_commands().reserved() + 1 <= Entity::PLACEHOLDER_INDEX,
        ensures
            r.entity.index == old(self).held_commands().reserved(),
            r.commands.base() == old(self).held_commands().base(),
            r.commands.reserved() == old(self).held_commands().reserved() + 1,
            r.commands.queued().len() == old(self).held_commands().queued().len() + 1,
            r.commands.queued().drop_last() == old(self).held_commands().queued(),
            r.commands.queued().last() matches Command::Spawn { bundle, under }
                && under == Some(old(self).spawn_target())
                && bundle.components@.len() == 0 && bundle.child_of is None && bundle.related@.len() == 0,
            final(self).spawn_target() == old(self).spawn_target(),
            final(self).held_commands() == *final(r.commands),
    {
        let b = Bundle::new();
        assert(b.related@ =~= Seq::<Bundle>::empty());
        self.spawn(b)
    }
}

impl<'a> EntityCommands<'a> {
    /// Spawns children of this entity (with a [`ChildOf`] relationship) by taking a
    /// function that operates on a [`ChildSpawnerCommands`].
    pub fn with_children(&mut self, func: impl FnOnce(&mut ChildSpawnerCommands)) -> (r: &mut Self)
        requires
            forall|s: &mut ChildSpawnerCommands|
                s.spawn_target() == old(self).entity && s.held_commands() == *old(self).commands ==> call_requires(func, (s,)),
        ensures
            r.entity == old(self).entity,
            exists|s: &mut ChildSpawnerCommands| #![auto]
                call_ensures(func, (s,), ())
                && s.spawn_target() == old(self).entity
                && s.held_commands() == *old(self).commands
                && *r.commands == final(s).held_commands(),
            *final(self) == *final(r),
            *final(r.commands) == *final(old(self).commands),
    {
        let mut commands = Commands::empty();
        std::mem::swap(&mut commands, self.commands);
        let mut spawner = ChildSpawnerCommands { commands, target: self.entity };
        let sp = &mut spawner;
        assert(sp.spawn_target() == old(self).entity && sp.held_commands() == *old(self).commands);
        assert(call_requires(func, (sp,)));
        func(sp);
        let ChildSpawnerCommands { commands: done, target: _ } = spawner;
        *self.commands = done;
        self
    }

    /// Queues adding the given children to this entity.
    pub fn add_children(&mut self, children: &[Entity]) -> (r: &mut Self)
        ensures
            r.entity == old(self).entity,
            r.commands.base() == old(self).commands.base(),
            r.commands.reserved() == old(self).commands.reserved(),
            r.commands.queued().len() == old(self).commands.queued().len() + 1,
            r.commands.queued().drop_last() == old(self).commands.queued(),
            r.commands.queued().last() matches Command::AddChildren { parent, children: cs }
                && parent == old(self).entity && cs@ == children@,
            *final(self) == *final(r),
            *final(r.commands) == *final(old(self).commands),
    {
        let cs = copy_entities(children);
        self.commands.push(Command::AddChildren { parent: self.entity, children: cs });
        self
    }

    /// Queues adding the given child to this entity.
    pub fn add_child(&mut self, child: Entity) -> (r: &mut Self)
        ensures
            r.entity == old(self).entity,
            r.commands.base() == old(self).commands.base(),
            r.commands.reserved() == old(self).commands.reserved(),
            r.commands.queued().len() == old(self).commands.queued().len() + 1,
            r.commands.queued().drop_last() == old(self).commands.queued(),
            r.commands.queued().last() matches Command::AddChildren { parent, children: cs }
                && parent == old(self).entity && cs@ == seq![child],
            *final(self) == *final(r),
            *final(r.commands) == *final(old(self).commands),
    {
        let mut one: Vec<Entity> = Vec::new();
        one.push(child);
        assert(one@ =~= seq![child]);
        self.add_children(one.as_slice())
    }

    /// Queues spawning the passed bundle as a child of this entity.
    pub fn with_child(&mut self, bundle: Bundle) -> (r: &mut Self)
        requires
            old(self).commands.reserved() + bundle_count(bundle) <= Entity::PLACEHOLDER_INDEX,
        ensures
            r.entity == old(self).entity,
            r.commands.base() == old(self).commands.base(),
            r.commands.reserved() == old(self).commands.reserved() + bundle_count(bundle),
            r.commands.queued() == old(self).commands.queued().push(
                Command::Spawn { bundle, under: Some(old(self).entity) },
            ),
            *final(self) == *final(r),
            *final(r.commands) == *final(old(self).commands),
    {
        let parent = self.id();
        self.commands.push_spawn(bundle, Some(parent));
        self
    }

    /// Queues removing the [`ChildOf`] component, if it exists.
    pub fn remove_parent(&mut self) -> (r: &mut Self)
        ensures
            r.entity == old(self).entity,
            r.commands.base() == old(self).commands.base(),
            r.commands.reserved() == old(self).commands.reserved(),
            r.commands.queued() == old(self).commands.queued().push(
                Command::RemoveChildOf { entity: old(self).entity },
            ),
            *final(self) == *final(r),
            *final(r.commands) == *final(old(self).commands),
    {
        self.remove_child_of()
    }

    /// Queues inserting the [`ChildOf`] component with the given `parent` entity, if
    /// that entity exists when the command is applied.
    pub fn set_parent(&mut self, parent: Entity) -> (r: &mut Self)
        ensures
            r.entity == old(self).entity,
            r.commands.base() == old(self).commands.base(),
            r.commands.reserved() == old(self).commands.reserved(),
            r.commands.queued() == old(self).commands.queued().push(
                Command::SetParent { entity: old(self).entity, parent },
            ),
            *final(self) == *final(r),
            *final(r.commands) == *final(old(self).commands),
    {
        self.commands.push(Command::SetParent { entity: self.entity, parent });
        self
    }
}


/// What `disqualified::ShortName` displays for a full type name: the name with the
/// module paths taken out.
pub uninterp spec fn shortened_name(full: Seq<char>) -> Seq<char>;

/// Calls `disqualified::ShortName(full).to_string()`. The contract claims only that
/// the result is a function of `full`, named `shortened_name`: the same name always
/// shortens to the same text.
#[verifier::external_body]
fn shorten_name(full: &str) -> (r: String)
    ensures
        r@ == shortened_name(full@),
{
    disqualified::ShortName(full).to_string()
}

/// The warning that an entity's `ChildOf` points to a parent without a component that
/// the entity's own component expects on its parent.
pub struct ParentWarning {
    /// The entity whose component was inserted.
    pub entity: Entity,
    /// Where the insertion was made, if known.
    pub caller: Option<String>,
    /// The short name of the expected component's type.
    pub short_name: String,
}

/// The check of an `on_insert` component hook: if the live entity `entity` has a
/// `ChildOf` whose target is not a live entity holding `component`, the warning to
/// give (naming the component's type by its short name); otherwise nothing.
pub fn validate_parent_has_component(
    world: &World,
    entity: Entity,
    component: ComponentId,
    component_name: &str,
    caller: Option<String>,
) -> (r: Option<ParentWarning>)
    requires
        world@.alive(entity),
    ensures
        r is Some <==> (world@.parent(entity) matches Some(p)
            && !(world@.alive(p) && world@.components(p).contains(component))),
        r matches Some(w) ==> {
            &&& w.entity == entity
            &&& w.caller == caller
            &&& w.short_name@ == shortened_name(component_name@)
        },
{
    let entity_ref = world.entity(entity);
    let parent = match entity_ref.get_child_of() {
        Some(child_of) => child_of.parent,
        None => {
            return None;
        },
    };
    let parent_has = match world.get_entity(parent) {
        Ok(e) => e.contains(component),
        Err(_) => false,
    };
    if !parent_has {
        Some(ParentWarning { entity, caller, short_name: shorten_name(component_name) })
    } else {
        None
    }
}

} // verus!
