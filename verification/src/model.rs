use vstd::prelude::*;
use crate::entity::{Entity, ComponentId};
use crate::world::RelationshipHookMode;
use crate::bundle::{Bundle, bundle_parent};

verus! {

/// What a world holds for one live entity: its `ChildOf` target, whether it has a
/// `Children` component and the entities that component lists (empty when it has
/// none), and its other components.
pub struct EntityRecord {
    pub parent: Option<Entity>,
    pub children: Seq<Entity>,
    pub has_children: bool,
    pub components: Set<ComponentId>,
}

/// The mathematical state of a world: how many entities were ever spawned, and the
/// record of each live entity.
pub struct WorldModel {
    pub next: nat,
    pub records: Map<Entity, EntityRecord>,
}

/// `s` with, for each member of `d`, its first occurrence removed.
pub open spec fn drop_firsts(s: Seq<Entity>, d: Set<Entity>) -> Seq<Entity>
    decreases s.len(),
{
    if s.len() == 0 {
        s
    } else if d.contains(s[0]) {
        drop_firsts(s.drop_first(), d.remove(s[0]))
    } else {
        seq![s[0]] + drop_firsts(s.drop_first(), d)
    }
}

impl WorldModel {
    pub open spec fn alive(self, e: Entity) -> bool {
        self.records.dom().contains(e)
    }

    pub open spec fn parent(self, e: Entity) -> Option<Entity> {
        self.records[e].parent
    }

    pub open spec fn children(self, e: Entity) -> Seq<Entity> {
        self.records[e].children
    }

    pub open spec fn has_children(self, e: Entity) -> bool {
        self.records[e].has_children
    }

    pub open spec fn components(self, e: Entity) -> Set<ComponentId> {
        self.records[e].components
    }

    /// Every live entity has an index below the number of entities ever spawned.
    pub open spec fn wf(self) -> bool {
        forall|e: Entity| #[trigger] self.alive(e) ==> e.index < self.next
    }

    /// The entity that the next spawn creates.
    pub open spec fn next_entity(self) -> Entity {
        Entity { index: self.next as u32 }
    }

    pub open spec fn set_parent(self, e: Entity, p: Option<Entity>) -> WorldModel {
        WorldModel {
            records: self.records.insert(e, EntityRecord { parent: p, ..self.records[e] }),
            ..self
        }
    }

    pub open spec fn set_children(self, e: Entity, c: Seq<Entity>) -> WorldModel {
        WorldModel {
            records: self.records.insert(
                e,
                EntityRecord { children: c, has_children: c.len() > 0, ..self.records[e] },
            ),
            ..self
        }
    }

    /// Giving `e` a `Children` component that lists nothing yet, if it had none.
    pub open spec fn mark_children(self, e: Entity) -> WorldModel {
        WorldModel {
            records: self.records.insert(e, EntityRecord { has_children: true, ..self.records[e] }),
            ..self
        }
    }

    /// The effect of the `ChildOf` replace hook: `e` leaves the `Children` of the live
    /// entity its `ChildOf` points to (first occurrence only).
    pub open spec fn detach(self, e: Entity) -> WorldModel {
        match self.parent(e) {
            Some(q) => if self.alive(q) {
                self.set_children(q, self.children(q).remove_value(e))
            } else {
                self
            },
            None => self,
        }
    }

    /// Removing the `ChildOf` component of `e` (hooks run).
    pub open spec fn remove_parent(self, e: Entity) -> WorldModel {
        self.detach(e).set_parent(e, None)
    }

    /// Inserting `ChildOf { parent: p }` on `e` with the given hook mode.
    pub open spec fn insert_parent(self, e: Entity, p: Entity, mode: RelationshipHookMode) -> WorldModel {
        match mode {
            RelationshipHookMode::Run => {
                let m = self.detach(e).set_parent(e, Some(p));
                if p == e || !m.alive(p) {
                    m.remove_parent(e)
                } else {
                    m.set_children(p, m.children(p).push(e))
                }
            },
            _ => self.set_parent(e, Some(p)),
        }
    }

    /// Setting the parent of `e` to `p` if `p` is live (hooks run); a dead `p` leaves
    /// the world as it was.
    pub open spec fn attach_if_alive(self, e: Entity, p: Entity) -> WorldModel {
        if self.alive(p) {
            self.insert_parent(e, p, RelationshipHookMode::Run)
        } else {
            self
        }
    }

    /// Spawning an entity that holds the given components and no hierarchy component.
    pub open spec fn spawn(self, components: Set<ComponentId>) -> WorldModel {
        WorldModel {
            next: self.next + 1,
            records: self.records.insert(
                self.next_entity(),
                EntityRecord { parent: None, children: Seq::empty(), has_children: false, components },
            ),
        }
    }

    /// Spawning an entity with the given components and, where given, a `ChildOf`.
    pub open spec fn spawn_with_parent(self, components: Set<ComponentId>, parent: Option<Entity>) -> WorldModel {
        match parent {
            Some(p) => self.spawn(components).insert_parent(self.next_entity(), p, RelationshipHookMode::Run),
            None => self.spawn(components),
        }
    }

    /// Inserting `ChildOf` pointing to `p` on each entity of `cs`, in order.
    pub open spec fn add_children(self, p: Entity, cs: Seq<Entity>) -> WorldModel
        decreases cs.len(),
    {
        if cs.len() == 0 {
            self
        } else {
            self.add_children(p, cs.drop_last()).insert_parent(cs.last(), p, RelationshipHookMode::Run)
        }
    }

    /// Spawning the bundle `b`, as a child of `nested` where that is given.
    pub open spec fn spawn_bundle(self, b: Bundle, nested: Option<Entity>) -> WorldModel
        decreases b,
    {
        let e = self.next_entity();
        let m = self.spawn_with_parent(b.components@.to_set(), bundle_parent(b, nested));
        let m = if b.children_component { m.mark_children(e) } else { m };
        m.spawn_related(b.related@, e)
    }

    /// Spawning each bundle of `bs`, in order, as a child of `p`.
    pub open spec fn spawn_related(self, bs: Seq<Bundle>, p: Entity) -> WorldModel
        decreases bs,
    {
        if bs.len() == 0 {
            self
        } else {
            self.spawn_related(bs.drop_last(), p).spawn_bundle(bs.last(), Some(p))
        }
    }

    /// `path` is a chain of live entities, each listed in the `Children` of the one before.
    pub open spec fn is_path(self, path: Seq<Entity>) -> bool {
        &&& path.len() > 0
        &&& forall|i: int| 0 <= i < path.len() ==> self.alive(#[trigger] path[i])
        &&& forall|i: int| 0 < i < path.len() ==> self.children(path[i - 1]).contains(#[trigger] path[i])
    }

    /// `to` is `from` or a live descendant of `from` through `Children` lists.
    pub open spec fn reaches(self, from: Entity, to: Entity) -> bool {
        exists|path: Seq<Entity>| #[trigger] self.is_path(path) && path[0] == from && path.last() == to
    }

    /// The entities that despawning `e` removes: `e` and everything it reaches.
    pub open spec fn subtree(self, e: Entity) -> Set<Entity> {
        Set::new(|x: Entity| self.reaches(e, x))
    }

    /// Despawning `e`: the subtree of `e` goes, and each of its members leaves the
    /// `Children` of the surviving entity that its `ChildOf` points to; a surviving
    /// entity that some member pointed to loses its `Children` if that ends up empty.
    pub open spec fn despawn(self, e: Entity) -> WorldModel {
        if !self.alive(e) {
            self
        } else {
            let s = self.subtree(e);
            WorldModel {
                next: self.next,
                records: Map::new(
                    |y: Entity| self.alive(y) && !s.contains(y),
                    |y: Entity| {
                        let kept = drop_firsts(
                            self.children(y),
                            Set::new(|x: Entity| s.contains(x) && self.parent(x) == Some(y)),
                        );
                        EntityRecord {
                            children: kept,
                            has_children: if exists|x: Entity| s.contains(x) && self.parent(x) == Some(y) {
                                kept.len() > 0
                            } else {
                                self.has_children(y)
                            },
                            ..self.records[y]
                        }
                    },
                ),
            }
        }
    }

    /// The hierarchy as a user of the world sees it: among live entities, an entity
    /// lists exactly those that point to it; no list has duplicates; an entity has a
    /// `Children` component exactly when its list is not empty; and no `ChildOf` points
    /// to its own entity or to a dead one.
    pub open spec fn is_linked(self) -> bool {
        &&& forall|p: Entity, c: Entity| #![trigger self.children(p).contains(c)]
            self.alive(p) && self.alive(c) ==> (self.children(p).contains(c) <==> self.parent(c) == Some(p))
        &&& forall|p: Entity| #[trigger] self.alive(p) ==> {
            &&& self.children(p).no_duplicates()
            &&& self.has_children(p) == (self.children(p).len() > 0)
        }
        &&& forall|c: Entity| #![trigger self.parent(c)]
            self.alive(c) && self.parent(c) is Some ==> {
                &&& self.alive(self.parent(c)->0)
                &&& self.parent(c)->0 != c
            }
    }

    /// The `ChildOf` and `Children` components of the live entities agree: an entity
    /// lists exactly the live entities that point to it, each once, and no entity
    /// points to itself or to a dead entity.
    pub open spec fn is_consistent(self) -> bool {
        &&& forall|c: Entity| #![trigger self.parent(c)]
            self.alive(c) && self.parent(c) is Some ==> {
                let p = self.parent(c).unwrap();
                &&& self.alive(p)
                &&& p != c
                &&& self.children(p).contains(c)
            }
        &&& forall|p: Entity, c: Entity| #![trigger self.children(p).contains(c)]
            self.alive(p) && self.children(p).contains(c) ==> {
                &&& self.alive(c)
                &&& self.parent(c) == Some(p)
            }
        &&& forall|p: Entity| #[trigger] self.alive(p) ==> self.children(p).no_duplicates()
    }
}

} // verus!
