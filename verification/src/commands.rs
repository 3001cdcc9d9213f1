use vstd::prelude::*;
use crate::entity::Entity;
use crate::hierarchy::ChildOf;
use crate::bundle::{Bundle, bundle_count, nested_ok};
use crate::model::WorldModel;
use crate::world::{World, RelationshipHookMode};

verus! {

/// A change to a world, queued to be applied later.
pub enum Command {
    /// Spawn a bundle, as a child of `parent` where that is given.
    Spawn { bundle: Bundle, under: Option<Entity> },
    /// Insert a `ChildOf` with the given hook mode.
    Insert { entity: Entity, child_of: ChildOf, mode: RelationshipHookMode },
    /// Remove the `ChildOf`, running its hooks.
    RemoveChildOf { entity: Entity },
    /// Insert `ChildOf { parent }` on each of `children`, in order (queued for the
    /// entity `parent`).
    AddChildren { parent: Entity, children: Vec<Entity> },
    /// Despawn an entity and everything it reaches through `Children`.
    Despawn { entity: Entity },
    /// Set the parent of `entity` to `parent` if `parent` is live at that time.
    SetParent { entity: Entity, parent: Entity },
}

impl WorldModel {
    /// The world after applying the command `c`.
    pub open spec fn apply(self, c: Command) -> WorldModel {
        match c {
            Command::Spawn { bundle, under } => self.spawn_bundle(bundle, under),
            Command::Insert { entity, child_of, mode } => self.insert_parent(entity, child_of.parent, mode),
            Command::RemoveChildOf { entity } => self.remove_parent(entity),
            Command::AddChildren { parent, children } => self.add_children(parent, children@),
            Command::Despawn { entity } => self.despawn(entity),
            Command::SetParent { entity, parent } => self.attach_if_alive(entity, parent),
        }
    }

    /// The command `c` can be applied to this world: the entities it names are live
    /// (a despawn names any entity), and what it spawns fits.
    pub open spec fn command_ok(self, c: Command) -> bool {
        match c {
            Command::Spawn { bundle, under } => {
                &&& self.next + bundle_count(bundle) <= Entity::PLACEHOLDER_INDEX
                &&& under is Some ==> bundle.child_of is None
                &&& nested_ok(bundle.related@)
            },
            Command::Insert { entity, .. } => self.alive(entity),
            Command::RemoveChildOf { entity } => self.alive(entity),
            Command::AddChildren { parent, children } => {
                &&& self.alive(parent)
                &&& forall|i: int| 0 <= i < children@.len() ==> self.alive(#[trigger] children@[i])
            },
            Command::Despawn { .. } => true,
            Command::SetParent { entity, .. } => self.alive(entity),
        }
    }

    /// The world after applying the commands of `cs`, in order.
    pub open spec fn apply_all(self, cs: Seq<Command>) -> WorldModel
        decreases cs.len(),
    {
        if cs.len() == 0 {
            self
        } else {
            self.apply_all(cs.drop_last()).apply(cs.last())
        }
    }

    /// Each command of `cs` can be applied to the world that the ones before it leave.
    pub open spec fn all_ok(self, cs: Seq<Command>) -> bool
        decreases cs.len(),
    {
        if cs.len() == 0 {
            true
        } else {
            self.all_ok(cs.drop_last()) && self.apply_all(cs.drop_last()).command_ok(cs.last())
        }
    }
}

/// A queue of commands for one world, with the entities it has set aside for the
/// entities that its queued spawns will create.
pub struct Commands {
    base: usize,
    reserved: usize,
    queue: Vec<Command>,
}

/// How many entities the spawns among `cs` create.
pub open spec fn spawn_total(cs: Seq<Command>) -> nat
    decreases cs.len(),
{
    if cs.len() == 0 {
        0
    } else {
        spawn_total(cs.drop_last()) + match cs.last() {
            Command::Spawn { bundle, .. } => bundle_count(bundle),
            _ => 0,
        }
    }
}

impl Commands {
    /// The entities set aside are those the queued spawns will create, and they fit.
    #[verifier::type_invariant]
    spec fn counted(&self) -> bool {
        &&& self.reserved == self.base + spawn_total(self.queue@)
        &&& self.reserved <= Entity::PLACEHOLDER_INDEX
    }

    /// The number of entities the world had when this queue was made.
    pub closed spec fn base(&self) -> nat {
        self.base as nat
    }

    /// The index of the next entity this queue sets aside.
    pub closed spec fn reserved(&self) -> nat {
        self.reserved as nat
    }

    /// The queued commands, oldest first.
    pub closed spec fn queued(&self) -> Seq<Command> {
        self.queue@
    }

    /// An empty queue for `world`.
    pub fn new(world: &World) -> (r: Commands)
        ensures
            r.base() == world@.next,
            r.reserved() == world@.next,
            r.queued() == Seq::<Command>::empty(),
    {
        let n = world.spawned_count();
        Commands { base: n, reserved: n, queue: Vec::new() }
    }

    /// An empty queue for a world with no entity.
    pub(crate) fn empty() -> (r: Commands)
        ensures
            r.base() == 0,
            r.reserved() == 0,
            r.queued() == Seq::<Command>::empty(),
    {
        Commands { base: 0, reserved: 0, queue: Vec::new() }
    }

    /// Queues `c`, a command that spawns nothing.
    pub(crate) fn push(&mut self, c: Command)
        requires
            !(c is Spawn),
        ensures
            final(self).base() == old(self).base(),
            final(self).reserved() == old(self).reserved(),
            final(self).queued() == old(self).queued().push(c),
    {
        proof {
            use_type_invariant(&*self);
        }
        let mut me = Commands::empty();
        std::mem::swap(&mut me, self);
        let Commands { base, reserved, mut queue } = me;
        let ghost q0 = queue@;
        queue.push(c);
        assert(queue@.drop_last() =~= q0);
        *self = Commands { base, reserved, queue };
    }

    /// Queues spawning `bundle` (under `under` where given), setting aside the
    /// entities it will create, and returns the first of them.
    pub(crate) fn push_spawn(&mut self, bundle: Bundle, under: Option<Entity>) -> (e: Entity)
        requires
            old(self).reserved() + bundle_count(bundle) <= Entity::PLACEHOLDER_INDEX,
        ensures
            e.index == old(self).reserved(),
            final(self).reserved() == old(self).reserved() + bundle_count(bundle),
            final(self).base() == old(self).base(),
            final(self).queued() == old(self).queued().push(Command::Spawn { bundle, under }),
    {
        proof {
            use_type_invariant(&*self);
        }
        let mut me = Commands::empty();
        std::mem::swap(&mut me, self);
        let Commands { base, reserved, mut queue } = me;
        let e = Entity { index: reserved as u32 };
        let n = bundle.count();
        let ghost q0 = queue@;
        queue.push(Command::Spawn { bundle, under });
        assert(queue@.drop_last() =~= q0);
        *self = Commands { base, reserved: reserved + n, queue };
        e
    }

    /// Access to the live entity `e` through this queue.
    pub fn entity(&mut self, e: Entity) -> (r: EntityCommands<'_>)
        ensures
            r.entity == e,
            *r.commands == *old(self),
            *final(self) == *final(r.commands),
    {
        EntityCommands { commands: self, entity: e }
    }

    /// Queues spawning `bundle`, and gives access to the entity it will create.
    pub fn spawn(&mut self, bundle: Bundle) -> (r: EntityCommands<'_>)
        requires
            old(self).reserved() + bundle_count(bundle) <= Entity::PLACEHOLDER_INDEX,
        ensures
            r.entity.index == old(self).reserved(),
            r.commands.base() == old(self).base(),
            r.commands.reserved() == old(self).reserved() + bundle_count(bundle),
            r.commands.queued() == old(self).queued().push(Command::Spawn { bundle, under: None }),
            *final(self) == *final(r.commands),
    {
        let e = self.push_spawn(bundle, None);
        EntityCommands { commands: self, entity: e }
    }
}

/// Queues commands for one entity.
pub struct EntityCommands<'a> {
    pub commands: &'a mut Commands,
    pub entity: Entity,
}

impl<'a> EntityCommands<'a> {
    /// The entity these commands are for.
    pub fn id(&self) -> (r: Entity)
        ensures
            r == self.entity,
    {
        self.entity
    }

    /// Queues inserting a `ChildOf` component (hooks run).
    pub fn insert(&mut self, child_of: ChildOf) -> (r: &mut Self)
        ensures
            r.entity == old(self).entity,
            r.commands.base() == old(self).commands.base(),
            r.commands.reserved() == old(self).commands.reserved(),
            r.commands.queued() == old(self).commands.queued().push(
                Command::Insert { entity: old(self).entity, child_of, mode: RelationshipHookMode::Run },
            ),
            *final(self) == *final(r),
            *final(r.commands) == *final(old(self).commands),
    {
        self.commands.push(Command::Insert { entity: self.entity, child_of, mode: RelationshipHookMode::Run });
        self
    }

    /// Queues inserting a `ChildOf` component, its hooks running as `mode` says.
    pub fn insert_with_relationship_hook_mode(&mut self, child_of: ChildOf, mode: RelationshipHookMode) -> (r: &mut Self)
        ensures
            r.entity == old(self).entity,
            r.commands.base() == old(self).commands.base(),
            r.commands.reserved() == old(self).commands.reserved(),
            r.commands.queued() == old(self).commands.queued().push(
                Command::Insert { entity: old(self).entity, child_of, mode },
            ),
            *final(self) == *final(r),
            *final(r.commands) == *final(old(self).commands),
    {
        self.commands.push(Command::Insert { entity: self.entity, child_of, mode });
        self
    }

    /// Queues removing the `ChildOf` component (hooks run).
    pub fn remove_child_of(&mut self) -> (r: &mut Self)
        ensures
            r.entity == old(self).entity,
            r.commands.base() == old(self).commands.base(),
            r.commands.reserved() == old(self).commands.reserved(),
            r.commands.queued() == old(self).commands.queued().push(
                Command::RemoveChildOf { entity: old(self).entity },
            ),
            *final(self) == *final(r),
            *final(r.commands) == *final(old(self).commands),
    {
        self.commands.push(Command::RemoveChildOf { entity: self.entity });
        self
    }

    /// Queues despawning the entity and everything it reaches through `Children`.
    pub fn despawn(self)
        ensures
            final(self.commands).base() == old(self.commands).base(),
            final(self.commands).reserved() == old(self.commands).reserved(),
            final(self.commands).queued() == old(self.commands).queued().push(
                Command::Despawn { entity: self.entity },
            ),
    {
        self.commands.push(Command::Despawn { entity: self.entity });
    }
}

impl World {
    /// Applies the queued commands, oldest first.
    pub fn apply_commands(&mut self, commands: Commands)
        requires
            old(self)@.next == commands.base(),
            old(self)@.all_ok(commands.queued()),
        ensures
            final(self)@ == old(self)@.apply_all(commands.queued()),
            final(self)@.next == commands.reserved(),
    {
        proof {
            use_type_invariant(&commands);
            lemma_apply_all_next(self@, commands.queued());
        }
        let ghost m0 = self@;
        let ghost cs = commands.queued();
        let queue = commands.queue;
        let mut i: usize = 0;
        while i < queue.len()
            invariant
                cs == queue@,
                i <= cs.len(),
                m0.all_ok(cs),
                self@ == m0.apply_all(cs.take(i as int)),
            decreases cs.len() - i,
        {
            proof {
                lemma_all_ok_prefix(m0, cs, i as int + 1);
                assert(cs.take(i as int + 1).drop_last() =~= cs.take(i as int));
                assert(cs.take(i as int + 1).last() == cs[i as int]);
            }
            match &queue[i] {
                Command::Spawn { bundle, under } => {
                    self.spawn_bundle_rec(bundle, *under);
                },
                Command::Insert { entity, child_of, mode } => {
                    self.entity_mut(*entity).insert_with_relationship_hook_mode(*child_of, *mode);
                },
                Command::RemoveChildOf { entity } => {
                    self.entity_mut(*entity).remove_child_of();
                },
                Command::AddChildren { parent, children } => {
                    self.add_children_to(*parent, children.as_slice());
                },
                Command::Despawn { entity } => {
                    self.despawn(*entity);
                },
                Command::SetParent { entity, parent } => {
                    self.entity_mut(*entity).set_parent(*parent);
                },
            }
            i = i + 1;
        }
        proof {
            assert(cs.take(cs.len() as int) =~= cs);
        }
    }
}

/// Inserting `ChildOf` on several entities spawns nothing.
proof fn lemma_add_children_next(m: WorldModel, p: Entity, cs: Seq<Entity>)
    ensures
        m.add_children(p, cs).next == m.next,
    decreases cs.len(),
{
    if cs.len() > 0 {
        lemma_add_children_next(m, p, cs.drop_last());
    }
}

/// Applying commands spawns exactly the entities their spawns create.
proof fn lemma_apply_all_next(m: WorldModel, cs: Seq<Command>)
    ensures
        m.apply_all(cs).next == m.next + spawn_total(cs),
    decreases cs.len(),
{
    if cs.len() > 0 {
        lemma_apply_all_next(m, cs.drop_last());
        let m1 = m.apply_all(cs.drop_last());
        match cs.last() {
            Command::Spawn { bundle, under } => {
                crate::world::lemma_spawn_bundle_next(m1, bundle, under);
            },
            Command::AddChildren { parent, children } => {
                lemma_add_children_next(m1, parent, children@);
            },
            _ => {},
        }
    }
}

/// A prefix of commands that can all be applied can all be applied.
proof fn lemma_all_ok_prefix(m: WorldModel, cs: Seq<Command>, k: int)
    requires
        m.all_ok(cs),
        0 <= k <= cs.len(),
    ensures
        m.all_ok(cs.take(k)),
    decreases cs.len() - k,
{
    if k < cs.len() {
        lemma_all_ok_prefix(m, cs.drop_last(), k);
        assert(cs.drop_last().take(k) =~= cs.take(k));
    } else {
        assert(cs.take(k) =~= cs);
    }
}

} // verus!
