use vstd::prelude::*;
use crate::entity::{Entity, ComponentId};
use crate::hierarchy::{ChildOf, Children};
use crate::model::{EntityRecord, WorldModel, drop_firsts};
use crate::bundle::{Bundle, bundle_count, related_count, nested_ok, lemma_related_count_prefix, lemma_nested_ok_at};

verus! {

/// Whether inserting or removing a relationship runs its hooks.
#[derive(Clone, Copy, PartialEq, Eq, Structural, Debug)]
pub enum RelationshipHookMode {
    /// Run the hooks, keeping `ChildOf` and `Children` in agreement.
    Run,
    /// Run the hooks only for relationships whose target does not despawn its
    /// sources; `Children` does, so for the hierarchy this skips them.
    RunIfNotLinked,
    /// Do not run the hooks.
    Skip,
}

pub(crate) struct EntityData {
    pub(crate) alive: bool,
    pub(crate) child_of: Option<ChildOf>,
    pub(crate) children: Children,
    pub(crate) has_children: bool,
    pub(crate) components: Vec<ComponentId>,
}

impl EntityData {
    pub(crate) open spec fn record(&self) -> EntityRecord {
        EntityRecord {
            parent: match self.child_of {
                Some(c) => Some(c.parent),
                None => None,
            },
            children: self.children@,
            has_children: self.has_children,
            components: self.components@.to_set(),
        }
    }
}

/// A collection of entities, each with its hierarchy components and other components.
pub struct World {
    pub(crate) entities: Vec<EntityData>,
}

impl World {
    /// No more entities than indices below the placeholder's.
    #[verifier::type_invariant]
    spec fn bounded(&self) -> bool {
        self.entities@.len() <= Entity::PLACEHOLDER_INDEX
    }
}

impl View for World {
    type V = WorldModel;

    closed spec fn view(&self) -> WorldModel {
        WorldModel {
            next: self.entities.len() as nat,
            records: Map::new(
                |e: Entity| (e.index as int) < self.entities.len() && self.entities[e.index as int].alive,
                |e: Entity| self.entities[e.index as int].record(),
            ),
        }
    }
}


/// The position of the first occurrence of `e` in `v`, if any.
pub(crate) fn first_position(v: &Vec<Entity>, e: Entity) -> (r: Option<usize>)
    ensures
        r matches Some(i) ==> v@.index_of_first(e) == Some(i as int) && i < v@.len() && v@[i as int] == e,
        r is None ==> v@.index_of_first(e) is None && !v@.contains(e),
{
    let mut i: usize = 0;
    while i < v.len()
        invariant
            i <= v@.len(),
            forall|j: int| 0 <= j < i ==> v@[j] != e,
        decreases v@.len() - i,
    {
        if v[i] == e {
            proof {
                v@.index_of_first_ensures(e);
            }
            assert(v@.index_of_first(e) == Some(i as int));
            return Some(i);
        }
        i = i + 1;
    }
    proof {
        v@.index_of_first_ensures(e);
    }
    None
}


/// The number of `true` entries of `s`.
spec fn count_true(s: Seq<bool>) -> nat
    decreases s.len(),
{
    if s.len() == 0 {
        0
    } else {
        count_true(s.drop_last()) + if s.last() { 1nat } else { 0nat }
    }
}

proof fn lemma_count_true_bound(s: Seq<bool>)
    ensures
        count_true(s) <= s.len(),
    decreases s.len(),
{
    if s.len() > 0 {
        lemma_count_true_bound(s.drop_last());
    }
}

proof fn lemma_count_true_set(s: Seq<bool>, i: int)
    requires
        0 <= i < s.len(),
        !s[i],
    ensures
        count_true(s.update(i, true)) == count_true(s) + 1,
    decreases s.len(),
{
    let t = s.update(i, true);
    if i == s.len() - 1 {
        assert(t.drop_last() =~= s.drop_last());
    } else {
        lemma_count_true_set(s.drop_last(), i);
        assert(t.drop_last() =~= s.drop_last().update(i, true));
    }
}

/// Along a path that starts in a set closed under listing live children, every
/// entity is in the set.
proof fn lemma_path_flagged(m: WorldModel, path: Seq<Entity>, flagged: spec_fn(Entity) -> bool, i: int)
    requires
        m.is_path(path),
        flagged(path[0]),
        0 <= i < path.len(),
        forall|y: Entity, c: Entity|
            #![trigger flagged(y), m.children(y).contains(c)]
            flagged(y) && m.alive(y) && m.children(y).contains(c) && m.alive(c) ==> flagged(c),
    ensures
        flagged(path[i]),
    decreases i,
{
    if i > 0 {
        lemma_path_flagged(m, path, flagged, i - 1);
        assert(m.children(path[i - 1]).contains(path[i]));
        assert(m.alive(path[i - 1]));
        assert(m.alive(path[i]));
    }
}

/// A set of entities that holds `e` and, with each of its members, the live entities
/// that member lists, holds everything that `e` reaches.
proof fn lemma_closed_holds_reach(m: WorldModel, e: Entity, flagged: spec_fn(Entity) -> bool, x: Entity)
    requires
        flagged(e),
        forall|y: Entity, c: Entity|
            #![trigger flagged(y), m.children(y).contains(c)]
            flagged(y) && m.alive(y) && m.children(y).contains(c) && m.alive(c) ==> flagged(c),
        m.reaches(e, x),
    ensures
        flagged(x),
{
    let path = choose|path: Seq<Entity>| #[trigger] m.is_path(path) && path[0] == e && path.last() == x;
    lemma_path_flagged(m, path, flagged, path.len() - 1);
}

/// One step of `drop_firsts`, read at position `k` of `s`.
proof fn lemma_drop_firsts_step(s: Seq<Entity>, d: Set<Entity>, k: int)
    requires
        0 <= k < s.len(),
    ensures
        drop_firsts(s.skip(k), d) == (if d.contains(s[k]) {
            drop_firsts(s.skip(k + 1), d.remove(s[k]))
        } else {
            seq![s[k]] + drop_firsts(s.skip(k + 1), d)
        }),
{
    assert(s.skip(k).drop_first() =~= s.skip(k + 1));
    assert(s.skip(k)[0] == s[k]);
}

/// Whether `c` occurs among the first `k` entries of `v`.
fn occurs_before(v: &[Entity], k: usize, c: Entity) -> (r: bool)
    requires
        k <= v@.len(),
    ensures
        r == v@.take(k as int).contains(c),
{
    let mut j: usize = 0;
    while j < k
        invariant
            k <= v@.len(),
            j <= k,
            forall|i: int| 0 <= i < j ==> v@[i] != c,
        decreases k - j,
    {
        if v[j] == c {
            assert(v@.take(k as int)[j as int] == c);
            return true;
        }
        j = j + 1;
    }
    assert forall|i: int| 0 <= i < k implies v@.take(k as int)[i] != c by {}
    false
}

/// The flag of `x` in `flags` is set.
spec fn flagged(flags: Seq<bool>, x: Entity) -> bool {
    (x.index as int) < flags.len() && flags[x.index as int]
}

/// The entities that `y` loses from its `Children` when the flagged entities despawn.
spec fn leaving(entities: Seq<EntityData>, flags: Seq<bool>, y: Entity) -> Set<Entity> {
    Set::new(|x: Entity| flagged(flags, x) && (x.index as int) < entities.len()
        && entities[x.index as int].record().parent == Some(y))
}

impl World {
    /// An empty world.
    pub fn new() -> (w: World)
        ensures
            w@.next == 0,
            w@.records == Map::<Entity, EntityRecord>::empty(),
    {
        let w = World { entities: Vec::new() };
        assert(w@.records =~= Map::<Entity, EntityRecord>::empty());
        w
    }

    /// Whether `e` is a live entity of this world.
    pub fn contains_entity(&self, e: Entity) -> (r: bool)
        ensures
            r == self@.alive(e),
    {
        (e.index as usize) < self.entities.len() && self.entities[e.index as usize].alive
    }

    /// Replaces the `ChildOf` of a live entity, running no hook.
    fn set_child_of(&mut self, e: Entity, c: Option<ChildOf>)
        requires
            old(self)@.alive(e),
        ensures
            final(self)@ == old(self)@.set_parent(
                e,
                match c {
                    Some(x) => Some(x.parent),
                    None => None,
                },
            ),
    {
        proof {
            use_type_invariant(&*self);
        }
        let i = e.index as usize;
        self.entities[i].child_of = c;
        proof {
            let p = match c {
                Some(x) => Some(x.parent),
                None => None,
            };
            assert(self@.records =~= old(self)@.set_parent(e, p).records);
        }
    }

    /// Removes the first occurrence of `e` from the `Children` of the live entity `q`,
    /// and that component if it ends up empty.
    fn remove_listed_child(&mut self, q: Entity, e: Entity)
        requires
            old(self)@.alive(q),
        ensures
            final(self)@ == old(self)@.set_children(q, old(self)@.children(q).remove_value(e)),
    {
        proof {
            use_type_invariant(&*self);
        }
        let i = q.index as usize;
        self.entities[i].children.remove_value(e);
        let non_empty = self.entities[i].children.len() > 0;
        self.entities[i].has_children = non_empty;
        assert(self@.records =~= old(self)@.set_children(q, old(self)@.children(q).remove_value(e)).records);
    }

    /// Appends `e` to the `Children` of the live entity `q`.
    fn push_listed_child(&mut self, q: Entity, e: Entity)
        requires
            old(self)@.alive(q),
        ensures
            final(self)@ == old(self)@.set_children(q, old(self)@.children(q).push(e)),
    {
        proof {
            use_type_invariant(&*self);
        }
        let i = q.index as usize;
        self.entities[i].children.push(e);
        self.entities[i].has_children = true;
        assert(self@.records =~= old(self)@.set_children(q, old(self)@.children(q).push(e)).records);
    }

    /// Gives the live entity `e` a `Children` component, if it had none.
    fn mark_children(&mut self, e: Entity)
        requires
            old(self)@.alive(e),
        ensures
            final(self)@ == old(self)@.mark_children(e),
    {
        proof {
            use_type_invariant(&*self);
        }
        let i = e.index as usize;
        self.entities[i].has_children = true;
        assert(self@.records =~= old(self)@.mark_children(e).records);
    }

    /// Runs the `ChildOf` replace hook of `e`.
    fn detach(&mut self, e: Entity)
        requires
            old(self)@.alive(e),
        ensures
            final(self)@ == old(self)@.detach(e),
    {
        let i = e.index as usize;
        match self.entities[i].child_of {
            Some(c) => {
                if self.contains_entity(c.parent) {
                    self.remove_listed_child(c.parent, e);
                }
            },
            None => {},
        }
    }

    /// Removes the `ChildOf` of the live entity `e`, running its hooks.
    pub(crate) fn remove_child_of(&mut self, e: Entity)
        requires
            old(self)@.alive(e),
        ensures
            final(self)@ == old(self)@.remove_parent(e),
    {
        self.detach(e);
        self.set_child_of(e, None);
    }

    /// Inserts `c` on the live entity `e` with the given hook mode.
    pub(crate) fn insert_child_of(&mut self, e: Entity, c: ChildOf, mode: RelationshipHookMode)
        requires
            old(self)@.alive(e),
        ensures
            final(self)@ == old(self)@.insert_parent(e, c.parent, mode),
    {
        match mode {
            RelationshipHookMode::Run => {
                self.detach(e);
                self.set_child_of(e, Some(c));
                if c.parent == e || !self.contains_entity(c.parent) {
                    self.remove_child_of(e);
                } else {
                    self.push_listed_child(c.parent, e);
                }
            },
            _ => {
                self.set_child_of(e, Some(c));
            },
        }
    }
}


impl World {
    /// Flags, by index, the entities that despawning the live entity `e` removes.
    fn subtree_flags(&self, e: Entity) -> (flags: Vec<bool>)
        requires
            self@.alive(e),
        ensures
            flags@.len() == self.entities@.len(),
            forall|x: Entity| #![trigger flagged(flags@, x)]
                flagged(flags@, x) <==> self@.subtree(e).contains(x),
    {
        let n = self.entities.len();
        let mut flags: Vec<bool> = Vec::new();
        let mut i: usize = 0;
        while i < n
            invariant
                i <= n,
                flags@.len() == i,
                forall|j: int| 0 <= j < i ==> !flags@[j],
            decreases n - i,
        {
            flags.push(false);
            i = i + 1;
        }
        let ghost m = self@;
        proof {
            assert(m.is_path(seq![e]));
            assert(m.reaches(e, e));
        }
        flags.set(e.index as usize, true);
        let mut work: Vec<Entity> = Vec::new();
        work.push(e);
        proof {
            assert(work@[0] == e);
            assert forall|y: Entity| #[trigger] flagged(flags@, y) implies y == e && work@.contains(y) by {
                assert(y.index == e.index);
            }
        }
        while work.len() > 0
            invariant
                m == self@,
                n == self.entities@.len(),
                flags@.len() == n,
                flagged(flags@, e),
                forall|x: Entity| #[trigger] flagged(flags@, x) ==> m.alive(x) && m.reaches(e, x),
                forall|k: int| 0 <= k < work@.len() ==> flagged(flags@, #[trigger] work@[k]),
                forall|y: Entity, c: Entity|
                    #![trigger flagged(flags@, y), m.children(y).contains(c)]
                    flagged(flags@, y) && !work@.contains(y) && m.children(y).contains(c) && m.alive(c)
                        ==> flagged(flags@, c),
            decreases n - count_true(flags@), work@.len(),
        {
            let ghost work0 = work@;
            let x = work.pop().unwrap();
            assert(work0 == work@.push(x));
            assert(flagged(flags@, work0[work0.len() - 1]));
            let ghost count0 = count_true(flags@);
            let ghost flags0 = flags@;
            let ghost wlen0 = work@.len();
            let kids = self.entities[x.index as usize].children.as_slice();
            assert(kids@ == m.children(x));
            let mut j: usize = 0;
            while j < kids.len()
                invariant
                    m == self@,
                    n == self.entities@.len(),
                    kids@ == m.children(x),
                    flags@.len() == n,
                    flagged(flags@, e),
                    flagged(flags@, x),
                    m.reaches(e, x),
                    forall|y: Entity| #[trigger] flagged(flags0, y) ==> flagged(flags@, y),
                    forall|x: Entity| #[trigger] flagged(flags@, x) ==> m.alive(x) && m.reaches(e, x),
                    forall|k: int| 0 <= k < work@.len() ==> flagged(flags@, #[trigger] work@[k]),
                    forall|k: int| 0 <= k < wlen0 ==> work@[k] == work0[k],
                    count_true(flags@) >= count0,
                    work@.len() == wlen0 + (count_true(flags@) - count0),
                    forall|i: int| 0 <= i < work@.len() && i >= wlen0 ==> !flagged(flags0, #[trigger] work@[i]),
                    forall|y: Entity| #[trigger] flagged(flags@, y) && !flagged(flags0, y) ==> work@.contains(y),
                    forall|jj: int| 0 <= jj < j && m.alive(#[trigger] kids@[jj]) ==> flagged(flags@, kids@[jj]),
                decreases kids@.len() - j,
            {
                let c = kids[j];
                if self.contains_entity(c) && !flags[c.index as usize] {
                    proof {
                        lemma_count_true_set(flags@, c.index as int);
                        assert(kids@[j as int] == c);
                        crate::laws::lemma_reach_step(m, e, x, c);
                    }
                    let ghost flags_before = flags@;
                    let ghost work_before = work@;
                    flags.set(c.index as usize, true);
                    work.push(c);
                    proof {
                        assert forall|y: Entity| #[trigger] flagged(flags@, y)
                            implies m.alive(y) && m.reaches(e, y) by {
                            if y.index != c.index {
                                assert(flagged(flags_before, y));
                            } else {
                                assert(y == c);
                            }
                        }
                        assert forall|y: Entity| #[trigger] flagged(flags@, y) && !flagged(flags0, y)
                            implies work@.contains(y) by {
                            if y.index != c.index {
                                assert(flagged(flags_before, y));
                                let k = choose|k: int| 0 <= k < work_before.len() && work_before[k] == y;
                                assert(work@[k] == y);
                            } else {
                                assert(y == c);
                                assert(work@[work@.len() - 1] == c);
                            }
                        }
                        assert forall|k: int| 0 <= k < work@.len() implies flagged(flags@, #[trigger] work@[k]) by {
                            if k < work_before.len() {
                                assert(work@[k] == work_before[k]);
                                assert(flagged(flags_before, work_before[k]));
                            }
                        }
                    }
                }
                j = j + 1;
            }
            proof {
                lemma_count_true_bound(flags@);
                assert forall|y: Entity, c: Entity|
                    #![trigger flagged(flags@, y), m.children(y).contains(c)]
                    flagged(flags@, y) && !work@.contains(y) && m.children(y).contains(c) && m.alive(c)
                        implies flagged(flags@, c) by {
                    if y == x {
                        let jj = choose|jj: int| 0 <= jj < kids@.len() && kids@[jj] == c;
                        assert(m.alive(kids@[jj]));
                    } else if flagged(flags0, y) {
                        if work0.contains(y) {
                            let k = choose|k: int| 0 <= k < work0.len() && work0[k] == y;
                            assert(k < wlen0);
                            assert(work@[k] == y);
                            assert(work@.contains(y));
                        }
                        assert(flagged(flags0, c));
                    } else {
                        assert(work@.contains(y));
                    }
                }
            }
        }
        proof {
            let f = |y: Entity| flagged(flags@, y);
            assert forall|x: Entity| #![trigger flagged(flags@, x)]
                flagged(flags@, x) <==> m.subtree(e).contains(x) by {
                if m.reaches(e, x) {
                    lemma_closed_holds_reach(m, e, f, x);
                }
            }
        }
        flags
    }

    /// Flags, by index, the entities that some flagged entity points to with its
    /// `ChildOf`.
    fn targeted_flags(&self, flags: &Vec<bool>) -> (t: Vec<bool>)
        requires
            flags@.len() == self.entities@.len(),
        ensures
            t@.len() == self.entities@.len(),
            forall|y: Entity| #![trigger t@[y.index as int]]
                (y.index as int) < t@.len() ==> (t@[y.index as int]
                    <==> exists|z: Entity| #[trigger] leaving(self.entities@, flags@, y).contains(z)),
    {
        proof {
            use_type_invariant(self);
        }
        let n = self.entities.len();
        let mut t: Vec<bool> = Vec::new();
        let mut i: usize = 0;
        while i < n
            invariant
                i <= n,
                t@.len() == i,
                forall|j: int| 0 <= j < i ==> !t@[j],
            decreases n - i,
        {
            t.push(false);
            i = i + 1;
        }
        let mut x: usize = 0;
        while x < n
            invariant
                n == self.entities@.len(),
                flags@.len() == n,
                t@.len() == n,
                x <= n,
                n <= Entity::PLACEHOLDER_INDEX,
                forall|y: Entity| #![trigger t@[y.index as int]]
                    (y.index as int) < n ==> (t@[y.index as int]
                        <==> exists|z: Entity| (z.index as int) < x
                            && #[trigger] leaving(self.entities@, flags@, y).contains(z)),
            decreases n - x,
        {
            let ghost t0 = t@;
            let z0 = Entity { index: x as u32 };
            if flags[x] {
                match self.entities[x].child_of {
                    Some(c) => {
                        if (c.parent.index as usize) < n {
                            t.set(c.parent.index as usize, true);
                        }
                    },
                    None => {},
                }
            }
            proof {
                assert forall|y: Entity| #![trigger t@[y.index as int]]
                    (y.index as int) < n implies (t@[y.index as int]
                        <==> exists|z: Entity| (z.index as int) < x + 1
                            && #[trigger] leaving(self.entities@, flags@, y).contains(z)) by {
                    let d = leaving(self.entities@, flags@, y);
                    if d.contains(z0) {
                        assert(z0.index == x);
                        assert(self.entities@[x as int].record().parent == Some(y));
                    }
                    if t@[y.index as int] && !t0[y.index as int] {
                        assert(d.contains(z0));
                    }
                    if exists|z: Entity| (z.index as int) < x + 1 && #[trigger] d.contains(z) {
                        let z = choose|z: Entity| (z.index as int) < x + 1 && #[trigger] d.contains(z);
                        if z.index == x {
                            assert(z == z0);
                        } else {
                            assert((z.index as int) < x);
                        }
                    }
                }
            }
            x = x + 1;
        }
        proof {
            assert forall|y: Entity| #![trigger t@[y.index as int]]
                (y.index as int) < t@.len() implies (t@[y.index as int]
                    <==> exists|z: Entity| #[trigger] leaving(self.entities@, flags@, y).contains(z)) by {
                let d = leaving(self.entities@, flags@, y);
                if exists|z: Entity| #[trigger] d.contains(z) {
                    let z = choose|z: Entity| #[trigger] d.contains(z);
                    assert((z.index as int) < n);
                }
            }
        }
        t
    }

    /// The `Children` of `y` without the first occurrence of each flagged entity whose
    /// `ChildOf` points to `y`.
    fn surviving_children(&self, flags: &Vec<bool>, y: Entity) -> (r: Children)
        requires
            (y.index as int) < self.entities@.len(),
        ensures
            r@ == drop_firsts(
                self.entities@[y.index as int].children@,
                leaving(self.entities@, flags@, y),
            ),
    {
        let kids = self.entities[y.index as usize].children.as_slice();
        let ghost s = kids@;
        let ghost d = leaving(self.entities@, flags@, y);
        let mut out: Vec<Entity> = Vec::new();
        let mut k: usize = 0;
        proof {
            assert(s.skip(0) =~= s);
            assert(d.difference(s.take(0).to_set()) =~= d);
            assert(out@ + drop_firsts(s, d) =~= drop_firsts(s, d));
        }
        while k < kids.len()
            invariant
                s == kids@,
                d == leaving(self.entities@, flags@, y),
                s == self.entities@[y.index as int].children@,
                k <= s.len(),
                out@ + drop_firsts(s.skip(k as int), d.difference(s.take(k as int).to_set()))
                    == drop_firsts(s, d),
            decreases s.len() - k,
        {
            let c = kids[k];
            let ghost dk = d.difference(s.take(k as int).to_set());
            proof {
                lemma_drop_firsts_step(s, dk, k as int);
                assert(s.take(k as int + 1).to_set() =~= s.take(k as int).to_set().insert(c)) by {
                    assert(s.take(k as int + 1) =~= s.take(k as int).push(c));
                    s.take(k as int).lemma_push_to_set_commute(c)
                }
                assert(d.difference(s.take(k as int + 1).to_set()) =~= dk.remove(c));
            }
            let ci = c.index as usize;
            let leaves = ci < flags.len() && flags[ci] && ci < self.entities.len()
                && match self.entities[ci].child_of {
                    Some(co) => co.parent == y,
                    None => false,
                }
                && !occurs_before(kids, k, c);
            let ghost out0 = out@;
            let ghost rest = drop_firsts(s.skip(k as int + 1), d.difference(s.take(k as int + 1).to_set()));
            assert(leaves == dk.contains(c));
            if !leaves {
                out.push(c);
                proof {
                    assert(dk.remove(c) =~= dk);
                    assert(out@ + rest =~= out0 + (seq![c] + rest));
                }
            }
            k = k + 1;
        }
        assert(s.skip(s.len() as int) =~= Seq::<Entity>::empty());
        Children::from_vec(out)
    }
}


impl World {
    /// Despawns `e` and everything it reaches through `Children`, if `e` is live.
    /// Returns whether `e` was live.
    pub(crate) fn despawn_entity(&mut self, e: Entity) -> (r: bool)
        ensures
            r == old(self)@.alive(e),
            final(self)@ == old(self)@.despawn(e),
    {
        if !self.contains_entity(e) {
            return false;
        }
        proof {
            use_type_invariant(&*self);
        }
        let flags = self.subtree_flags(e);
        let targeted = self.targeted_flags(&flags);
        let ghost m = self@;
        let ghost olds = self.entities@;
        let ghost sub = m.subtree(e);
        let n = self.entities.len();
        let mut y: usize = 0;
        while y < n
            invariant
                n == self.entities@.len(),
                olds.len() == n,
                flags@.len() == n,
                m == (WorldModel {
                    next: olds.len() as nat,
                    records: Map::new(
                        |e: Entity| (e.index as int) < olds.len() && olds[e.index as int].alive,
                        |e: Entity| olds[e.index as int].record(),
                    ),
                }),
                sub == m.subtree(e),
                forall|x: Entity| #![trigger flagged(flags@, x)]
                    flagged(flags@, x) <==> sub.contains(x),
                y <= n,
                n <= Entity::PLACEHOLDER_INDEX,
                forall|i: int| 0 <= i < n ==> (#[trigger] self.entities@[i]).child_of == olds[i].child_of,
                forall|i: int| y <= i < n ==> #[trigger] self.entities@[i] == olds[i],
                forall|i: int| 0 <= i < y ==> (#[trigger] self.entities@[i]).alive == (olds[i].alive && !flags@[i]),
                forall|i: int| 0 <= i < y && olds[i].alive && !flags@[i] ==>
                    (#[trigger] self.entities@[i]).components == olds[i].components
                    && self.entities@[i].children@ == drop_firsts(
                        olds[i].children@,
                        leaving(olds, flags@, Entity { index: i as u32 }),
                    )
                    && self.entities@[i].has_children == if targeted@[i] {
                        self.entities@[i].children@.len() > 0
                    } else {
                        olds[i].has_children
                    },
                targeted@.len() == n,
                forall|y: Entity| #![trigger targeted@[y.index as int]]
                    (y.index as int) < n ==> (targeted@[y.index as int]
                        <==> exists|z: Entity| #[trigger] leaving(olds, flags@, y).contains(z)),
            decreases n - y,
        {
            if flags[y] {
                self.entities[y].alive = false;
            } else if self.entities[y].alive {
                let ye = Entity { index: y as u32 };
                let ghost cur = self.entities@;
                assert(leaving(cur, flags@, ye) =~= leaving(olds, flags@, ye)) by {
                    assert forall|x: Entity| (x.index as int) < n implies
                        (#[trigger] cur[x.index as int]).record().parent == olds[x.index as int].record().parent by {}
                }
                let kids = self.surviving_children(&flags, ye);
                let has = if targeted[y] { kids.len() > 0 } else { self.entities[y].has_children };
                self.entities[y].children = kids;
                self.entities[y].has_children = has;
            }
            y = y + 1;
        }
        proof {
            let target = m.despawn(e);
            assert forall|x: Entity| #![trigger sub.contains(x)]
                m.alive(x) ==> (sub.contains(x) <==> flags@[x.index as int]) by {
                if m.alive(x) {
                    assert(flagged(flags@, x) <==> sub.contains(x));
                }
            }
            assert forall|x: Entity| sub.contains(x) implies #[trigger] m.alive(x) by {
                assert(flagged(flags@, x));
            }
            assert forall|yy: Entity| #[trigger] self@.records.dom().contains(yy) implies
                self@.records[yy] == target.records[yy] by {
                let i = yy.index as int;
                assert(leaving(olds, flags@, yy) =~= Set::new(
                    |x: Entity| sub.contains(x) && m.parent(x) == Some(yy),
                )) by {
                    assert forall|x: Entity| #[trigger] leaving(olds, flags@, yy).contains(x)
                        <==> sub.contains(x) && m.parent(x) == Some(yy) by {
                        if sub.contains(x) {
                            assert(flagged(flags@, x));
                        }
                        if flagged(flags@, x) {
                            assert(sub.contains(x));
                        }
                    }
                }
                assert(Entity { index: i as u32 } == yy);
                let dm = Set::new(|x: Entity| sub.contains(x) && m.parent(x) == Some(yy));
                assert(targeted@[yy.index as int] <==> exists|x: Entity| sub.contains(x) && m.parent(x) == Some(yy)) by {
                    if targeted@[yy.index as int] {
                        let z = choose|z: Entity| #[trigger] leaving(olds, flags@, yy).contains(z);
                        assert(dm.contains(z));
                    }
                    if exists|x: Entity| sub.contains(x) && m.parent(x) == Some(yy) {
                        let x = choose|x: Entity| sub.contains(x) && m.parent(x) == Some(yy);
                        assert(leaving(olds, flags@, yy).contains(x));
                    }
                }
            }
            assert(self@.records.dom() =~= target.records.dom()) by {
                assert forall|x: Entity| #[trigger] self@.records.dom().contains(x)
                    <==> target.records.dom().contains(x) by {
                    if (x.index as int) < n {
                        assert(flagged(flags@, x) <==> sub.contains(x));
                    }
                }
            }
            assert(self@.records =~= target.records);
        }
        true
    }
}


/// A copy of a list of component identifiers.
fn copy_components(v: &Vec<ComponentId>) -> (r: Vec<ComponentId>)
    ensures
        r@ == v@,
{
    let mut r: Vec<ComponentId> = Vec::new();
    let mut i: usize = 0;
    while i < v.len()
        invariant
            i <= v@.len(),
            r@ == v@.take(i as int),
        decreases v@.len() - i,
    {
        r.push(v[i]);
        i = i + 1;
        assert(r@ =~= v@.take(i as int));
    }
    assert(v@.take(v@.len() as int) =~= v@);
    r
}

impl World {
    /// Every live entity has an index below the number of spawned entities.
    pub proof fn lemma_view_wf(&self)
        ensures
            self@.wf(),
    {
    }

    /// The number of entities ever spawned in this world.
    pub fn spawned_count(&self) -> (r: usize)
        ensures
            r == self@.next,
            r <= Entity::PLACEHOLDER_INDEX,
    {
        proof {
            use_type_invariant(self);
        }
        self.entities.len()
    }

    /// Spawns an entity with the given components and no hierarchy component.
    fn spawn_raw(&mut self, components: &Vec<ComponentId>) -> (e: Entity)
        requires
            old(self)@.next < Entity::PLACEHOLDER_INDEX,
        ensures
            e == old(self)@.next_entity(),
            final(self)@ == old(self)@.spawn(components@.to_set()),
    {
        proof {
            use_type_invariant(&*self);
        }
        let e = Entity { index: self.entities.len() as u32 };
        let data = EntityData {
            alive: true,
            child_of: None,
            children: Children::from_vec(Vec::new()),
            has_children: false,
            components: copy_components(components),
        };
        let mut entities: Vec<EntityData> = Vec::new();
        std::mem::swap(&mut entities, &mut self.entities);
        entities.push(data);
        self.entities = entities;
        proof {
            let target = old(self)@.spawn(components@.to_set());
            assert(self@.records =~= target.records) by {
                assert forall|x: Entity| #[trigger] self@.records.dom().contains(x)
                    <==> target.records.dom().contains(x) by {
                    if x.index == e.index {
                        assert(x == e);
                    }
                }
                assert forall|x: Entity| #[trigger] self@.records.dom().contains(x)
                    implies self@.records[x] == target.records[x] by {
                    if x.index == e.index {
                        assert(x == e);
                        assert(self@.records[x].children =~= Seq::<Entity>::empty());
                    }
                }
            }
        }
        e
    }

    /// Spawns an entity with the given components and, where given, a `ChildOf`
    /// (its hooks run).
    pub(crate) fn spawn_with_parent(&mut self, components: &Vec<ComponentId>, child_of: Option<ChildOf>) -> (e: Entity)
        requires
            old(self)@.next < Entity::PLACEHOLDER_INDEX,
        ensures
            e == old(self)@.next_entity(),
            final(self)@ == old(self)@.spawn_with_parent(
                components@.to_set(),
                match child_of {
                    Some(c) => Some(c.parent),
                    None => None,
                },
            ),
    {
        let e = self.spawn_raw(components);
        match child_of {
            Some(c) => {
                self.insert_child_of(e, c, RelationshipHookMode::Run);
            },
            None => {},
        }
        e
    }
}


/// The error of looking up an entity that is not live.
#[derive(Clone, Copy, PartialEq, Eq, Structural, Debug)]
pub struct EntityDoesNotExistError {
    pub entity: Entity,
}

/// Read access to one live entity of a world.
pub struct EntityRef<'w> {
    pub world: &'w World,
    pub entity: Entity,
}

/// Write access to one live entity of a world.
pub struct EntityWorldMut<'w> {
    pub world: &'w mut World,
    pub entity: Entity,
}

impl World {
    /// Read access to the live entity `e`.
    pub fn entity(&self, e: Entity) -> (r: EntityRef<'_>)
        requires
            self@.alive(e),
        ensures
            r.world == self,
            r.entity == e,
    {
        EntityRef { world: self, entity: e }
    }

    /// Read access to `e`, or the error that it is not live.
    pub fn get_entity(&self, e: Entity) -> (r: Result<EntityRef<'_>, EntityDoesNotExistError>)
        ensures
            r is Ok <==> self@.alive(e),
            r matches Ok(er) ==> er.world == self && er.entity == e,
            r matches Err(err) ==> err.entity == e,
    {
        if self.contains_entity(e) {
            Ok(EntityRef { world: self, entity: e })
        } else {
            Err(EntityDoesNotExistError { entity: e })
        }
    }

    /// Write access to the live entity `e`.
    pub fn entity_mut(&mut self, e: Entity) -> (r: EntityWorldMut<'_>)
        requires
            old(self)@.alive(e),
        ensures
            r.entity == e,
            *r.world == *old(self),
            *final(self) == *final(r.world),
    {
        EntityWorldMut { world: self, entity: e }
    }

    /// Spawns an entity with no component.
    pub fn spawn_empty(&mut self) -> (r: EntityWorldMut<'_>)
        requires
            old(self)@.next < Entity::PLACEHOLDER_INDEX,
        ensures
            r.entity == old(self)@.next_entity(),
            r.world@ == old(self)@.spawn(Set::empty()),
            *final(self) == *final(r.world),
    {
        let none: Vec<ComponentId> = Vec::new();
        let e = self.spawn_raw(&none);
        assert(none@.to_set() =~= Set::<ComponentId>::empty());
        EntityWorldMut { world: self, entity: e }
    }

    /// Despawns `e` and everything it reaches through `Children`. Returns whether `e`
    /// was live.
    pub fn despawn(&mut self, e: Entity) -> (r: bool)
        ensures
            r == old(self)@.alive(e),
            final(self)@ == old(self)@.despawn(e),
    {
        self.despawn_entity(e)
    }
}

impl<'w> EntityRef<'w> {
    /// The entity this access is for.
    pub fn id(&self) -> (r: Entity)
        ensures
            r == self.entity,
    {
        self.entity
    }

    /// The `ChildOf` component of the entity, if it has one.
    pub fn get_child_of(&self) -> (r: Option<&'w ChildOf>)
        requires
            self.world@.alive(self.entity),
        ensures
            (match r {
                Some(c) => Some(c.parent),
                None => None,
            }) == self.world@.parent(self.entity),
    {
        let world: &'w World = self.world;
        world.entities[self.entity.index as usize].child_of.as_ref()
    }

    /// The `Children` component of the entity, if it has one.
    pub fn get_children(&self) -> (r: Option<&'w Children>)
        requires
            self.world@.alive(self.entity),
        ensures
            r is Some <==> self.world@.has_children(self.entity),
            r matches Some(c) ==> c@ == self.world@.children(self.entity),
    {
        let world: &'w World = self.world;
        let d = &world.entities[self.entity.index as usize];
        if d.has_children {
            Some(&d.children)
        } else {
            None
        }
    }

    /// Whether the entity holds the component `c`.
    pub fn contains(&self, c: ComponentId) -> (r: bool)
        requires
            self.world@.alive(self.entity),
        ensures
            r == self.world@.components(self.entity).contains(c),
    {
        let comps = &self.world.entities[self.entity.index as usize].components;
        let mut i: usize = 0;
        while i < comps.len()
            invariant
                i <= comps@.len(),
                forall|j: int| 0 <= j < i ==> comps@[j] != c,
                self.world@.alive(self.entity),
                *comps == self.world.entities@[self.entity.index as int].components,
            decreases comps@.len() - i,
        {
            if comps[i] == c {
                assert(comps@[i as int] == c);
                assert(comps@.contains(c));
                assert(self.world@.components(self.entity) == comps@.to_set());
                return true;
            }
            i = i + 1;
        }
        false
    }
}

impl<'w> EntityWorldMut<'w> {
    /// The entity this access is for.
    pub fn id(&self) -> (r: Entity)
        ensures
            r == self.entity,
    {
        self.entity
    }

    /// Inserts a `ChildOf` component, running its hooks: the entity leaves the
    /// `Children` of its former parent and joins the end of those of the new one, or
    /// loses the component again if it would point to itself or to a dead entity.
    pub fn insert(&mut self, child_of: ChildOf) -> (r: &mut Self)
        requires
            old(self).world@.alive(old(self).entity),
        ensures
            r.entity == old(self).entity,
            r.world@ == old(self).world@.insert_parent(
                old(self).entity,
                child_of.parent,
                RelationshipHookMode::Run,
            ),
            *final(self) == *final(r),
            *final(r.world) == *final(old(self).world),
    {
        self.world.insert_child_of(self.entity, child_of, RelationshipHookMode::Run);
        self
    }

    /// Inserts a `ChildOf` component, running its hooks only as `mode` says.
    pub fn insert_with_relationship_hook_mode(&mut self, child_of: ChildOf, mode: RelationshipHookMode) -> (r: &mut Self)
        requires
            old(self).world@.alive(old(self).entity),
        ensures
            r.entity == old(self).entity,
            r.world@ == old(self).world@.insert_parent(old(self).entity, child_of.parent, mode),
            *final(self) == *final(r),
            *final(r.world) == *final(old(self).world),
    {
        self.world.insert_child_of(self.entity, child_of, mode);
        self
    }

    /// Removes the `ChildOf` component, if any, running its hooks.
    pub fn remove_child_of(&mut self) -> (r: &mut Self)
        requires
            old(self).world@.alive(old(self).entity),
        ensures
            r.entity == old(self).entity,
            r.world@ == old(self).world@.remove_parent(old(self).entity),
            *final(self) == *final(r),
            *final(r.world) == *final(old(self).world),
    {
        self.world.remove_child_of(self.entity);
        self
    }

    /// Despawns the entity and everything it reaches through `Children`.
    pub fn despawn(self)
        requires
            self.world@.alive(self.entity),
        ensures
            final(self.world)@ == old(self.world)@.despawn(self.entity),
    {
        self.world.despawn_entity(self.entity);
    }

    /// The `ChildOf` component of the entity, if it has one.
    pub fn get_child_of(&self) -> (r: Option<&ChildOf>)
        requires
            self.world@.alive(self.entity),
        ensures
            (match r {
                Some(c) => Some(c.parent),
                None => None,
            }) == old(self.world)@.parent(self.entity),
    {
        self.world.entities[self.entity.index as usize].child_of.as_ref()
    }

    /// The `Children` component of the entity, if it has one.
    pub fn get_children(&self) -> (r: Option<&Children>)
        requires
            self.world@.alive(self.entity),
        ensures
            r is Some <==> old(self.world)@.has_children(self.entity),
            r matches Some(c) ==> c@ == old(self.world)@.children(self.entity),
    {
        let d = &self.world.entities[self.entity.index as usize];
        if d.has_children {
            Some(&d.children)
        } else {
            None
        }
    }
}


/// Spawning a bundle creates as many entities as it counts.
pub proof fn lemma_spawn_bundle_next(m: WorldModel, b: Bundle, nested: Option<Entity>)
    ensures
        m.spawn_bundle(b, nested).next == m.next + bundle_count(b),
    decreases b,
{
    let m1 = m.spawn_with_parent(b.components@.to_set(), crate::bundle::bundle_parent(b, nested));
    assert(m1.next == m.next + 1);
    let m2 = if b.children_component { m1.mark_children(m.next_entity()) } else { m1 };
    assert(m2.next == m1.next);
    lemma_spawn_related_next(m2, b.related@, m.next_entity());
}

/// Spawning bundles creates as many entities as they count.
pub proof fn lemma_spawn_related_next(m: WorldModel, bs: Seq<Bundle>, p: Entity)
    ensures
        m.spawn_related(bs, p).next == m.next + related_count(bs),
    decreases bs,
{
    if bs.len() > 0 {
        lemma_spawn_related_next(m, bs.drop_last(), p);
        lemma_spawn_bundle_next(m.spawn_related(bs.drop_last(), p), bs.last(), Some(p));
    }
}

impl World {
    /// Spawns the bundle `b`, as a child of `nested` where that is given.
    pub(crate) fn spawn_bundle_rec(&mut self, b: &Bundle, nested: Option<Entity>) -> (e: Entity)
        requires
            old(self)@.next + bundle_count(*b) <= Entity::PLACEHOLDER_INDEX,
            nested is Some ==> b.child_of is None,
            nested_ok(b.related@),
        ensures
            e == old(self)@.next_entity(),
            final(self)@ == old(self)@.spawn_bundle(*b, nested),
        decreases b,
    {
        let child_of = match nested {
            Some(p) => Some(ChildOf { parent: p }),
            None => b.child_of,
        };
        let e = self.spawn_with_parent(&b.components, child_of);
        if b.children_component {
            self.mark_children(e);
        }
        let ghost m1 = self@;
        let ghost rel = b.related@;
        let mut i: usize = 0;
        while i < b.related.len()
            invariant
                rel == b.related@,
                i <= rel.len(),
                nested_ok(rel),
                m1.next == old(self)@.next + 1,
                m1.next + related_count(rel) <= Entity::PLACEHOLDER_INDEX,
                self@ == m1.spawn_related(rel.take(i as int), e),
                self@.next == m1.next + related_count(rel.take(i as int)),
            decreases rel.len() - i,
        {
            proof {
                assert(rel.take(i as int + 1).drop_last() =~= rel.take(i as int));
                assert(rel.take(i as int + 1).last() == rel[i as int]);
                lemma_related_count_prefix(rel, i as int + 1);
                lemma_nested_ok_at(rel, i as int);
                lemma_spawn_bundle_next(self@, rel[i as int], Some(e));
            }
            self.spawn_bundle_rec(&b.related[i], Some(e));
            i = i + 1;
        }
        proof {
            assert(rel.take(rel.len() as int) =~= rel);
        }
        e
    }
}


impl World {
    /// Spawns the bundle `b`: an entity with its components and `ChildOf` (hooks run),
    /// then each related bundle as a child of that entity.
    pub fn spawn(&mut self, bundle: Bundle) -> (r: EntityWorldMut<'_>)
        requires
            old(self)@.next + bundle_count(bundle) <= Entity::PLACEHOLDER_INDEX,
            nested_ok(bundle.related@),
        ensures
            r.entity == old(self)@.next_entity(),
            r.world@ == old(self)@.spawn_bundle(bundle, None),
            *final(self) == *final(r.world),
    {
        let e = self.spawn_bundle_rec(&bundle, None);
        EntityWorldMut { world: self, entity: e }
    }

    /// Spawns the bundle `b` as a child of `parent`.
    pub(crate) fn spawn_child(&mut self, bundle: &Bundle, parent: Entity) -> (e: Entity)
        requires
            old(self)@.next + bundle_count(*bundle) <= Entity::PLACEHOLDER_INDEX,
            bundle.child_of is None,
            nested_ok(bundle.related@),
        ensures
            e == old(self)@.next_entity(),
            final(self)@ == old(self)@.spawn_bundle(*bundle, Some(parent)),
    {
        self.spawn_bundle_rec(bundle, Some(parent))
    }
}


impl World {
    /// Inserts `ChildOf { parent }` on each entity of `children`, in order, running the
    /// hooks.
    pub(crate) fn add_children_to(&mut self, parent: Entity, children: &[Entity])
        requires
            forall|i: int| 0 <= i < children@.len() ==> old(self)@.alive(#[trigger] children@[i]),
        ensures
            final(self)@ == old(self)@.add_children(parent, children@),
    {
        let ghost m0 = self@;
        let mut i: usize = 0;
        while i < children.len()
            invariant
                i <= children@.len(),
                self@ == m0.add_children(parent, children@.take(i as int)),
                self@.records.dom() == m0.records.dom(),
                forall|j: int| 0 <= j < children@.len() ==> m0.alive(#[trigger] children@[j]),
            decreases children@.len() - i,
        {
            let c = children[i];
            let ghost before = self@;
            self.insert_child_of(c, ChildOf { parent }, RelationshipHookMode::Run);
            proof {
                assert(children@.take(i as int + 1).drop_last() =~= children@.take(i as int));
                assert(children@.take(i as int + 1).last() == c);
                assert(self@.records.dom() =~= before.records.dom());
            }
            i = i + 1;
        }
        proof {
            assert(children@.take(children@.len() as int) =~= children@);
        }
    }
}

} // verus!
