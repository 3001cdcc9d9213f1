use vstd::prelude::*;
use crate::entity::Entity;
use crate::model::{WorldModel, drop_firsts};
use crate::bundle::{Bundle, bundle_count, related_count, bundle_parent};
use crate::commands::Command;
use crate::world::{RelationshipHookMode, World};
use crate::hierarchy::{ChildSpawner, ChildSpawnerCommands};
use crate::commands::Commands;

verus! {

/// A world with no entity is consistent and well formed.
pub proof fn lemma_empty_consistent()
    ensures
        (WorldModel { next: 0, records: Map::empty() }).is_consistent(),
        (WorldModel { next: 0, records: Map::empty() }).wf(),
{
}

/// What removing the first occurrence of `x` keeps of a list.
pub proof fn lemma_remove_value(s: Seq<Entity>, x: Entity)
    ensures
        forall|y: Entity| #[trigger] s.remove_value(x).contains(y) ==> s.contains(y),
        forall|y: Entity| s.contains(y) && y != x ==> #[trigger] s.remove_value(x).contains(y),
        s.no_duplicates() ==> s.remove_value(x).no_duplicates(),
        s.no_duplicates() ==> !s.remove_value(x).contains(x),
{
    s.index_of_first_ensures(x);
    match s.index_of_first(x) {
        Some(k) => {
            let r = s.remove(k);
            assert(r.len() == s.len() - 1);
            assert forall|i: int| 0 <= i < r.len() implies #[trigger] r[i] == (if i < k { s[i] } else { s[i + 1] }) by {}
            assert forall|y: Entity| #[trigger] r.contains(y) implies s.contains(y) by {
                let i = choose|i: int| 0 <= i < r.len() && r[i] == y;
                if i < k {
                    assert(s[i] == y);
                } else {
                    assert(s[i + 1] == y);
                }
            }
            assert forall|y: Entity| s.contains(y) && y != x implies #[trigger] r.contains(y) by {
                let j = choose|j: int| 0 <= j < s.len() && s[j] == y;
                if j < k {
                    assert(r[j] == y);
                } else {
                    assert(j != k);
                    assert(r[j - 1] == y);
                }
            }
            if s.no_duplicates() {
                assert forall|i: int, j: int| 0 <= i < r.len() && 0 <= j < r.len() && i != j
                    implies r[i] != r[j] by {
                    let si = if i < k { i } else { i + 1 };
                    let sj = if j < k { j } else { j + 1 };
                    assert(r[i] == s[si]);
                    assert(r[j] == s[sj]);
                }
                if r.contains(x) {
                    let i = choose|i: int| 0 <= i < r.len() && r[i] == x;
                    let si = if i < k { i } else { i + 1 };
                    assert(s[si] == x);
                    assert(si != k);
                }
            }
        },
        None => {},
    }
}

/// Removing a `ChildOf` (hooks run) keeps the hierarchy consistent, and afterwards no
/// entity lists the former child.
pub proof fn lemma_remove_parent_consistent(m: WorldModel, e: Entity)
    requires
        m.is_consistent(),
        m.alive(e),
    ensures
        m.remove_parent(e).is_consistent(),
        forall|y: Entity| #[trigger] m.remove_parent(e).alive(y) ==> !m.remove_parent(e).children(y).contains(e),
        m.remove_parent(e).records.dom() == m.records.dom(),
        m.remove_parent(e).parent(e) is None,
{
    let r = m.remove_parent(e);
    assert(r.records.dom() =~= m.records.dom());
    match m.parent(e) {
        Some(q) => {
            lemma_remove_value(m.children(q), e);
            assert forall|y: Entity| #[trigger] r.alive(y) implies !r.children(y).contains(e) by {
                if y != q && m.children(y).contains(e) {
                    assert(m.parent(e) == Some(y));
                }
            }
            assert forall|p: Entity, c: Entity| #[trigger] r.children(p).contains(c) && r.alive(p)
                implies r.alive(c) && r.parent(c) == Some(p) by {
                if p == q {
                    assert(m.children(q).contains(c));
                } else {
                    assert(m.children(p).contains(c));
                }
                if c == e {
                    assert(m.parent(e) == Some(p));
                }
            }
            assert forall|c: Entity| #[trigger] r.parent(c) is Some && r.alive(c) implies {
                let p = r.parent(c).unwrap();
                &&& r.alive(p)
                &&& p != c
                &&& r.children(p).contains(c)
            } by {
                assert(c != e);
                assert(m.parent(c) == r.parent(c));
                let p = m.parent(c).unwrap();
                assert(m.children(p).contains(c));
            }
            assert forall|p: Entity| #[trigger] r.alive(p) implies r.children(p).no_duplicates() by {
                assert(m.alive(p));
            }
        },
        None => {
            assert forall|y: Entity| #[trigger] r.alive(y) implies !r.children(y).contains(e) by {
                if m.children(y).contains(e) {
                    assert(m.parent(e) == Some(y));
                }
            }
            assert forall|p: Entity, c: Entity| #[trigger] r.children(p).contains(c) && r.alive(p)
                implies r.alive(c) && r.parent(c) == Some(p) by {
                assert(m.children(p).contains(c));
                if c == e {
                    assert(m.parent(e) == Some(p));
                }
            }
            assert forall|c: Entity| #[trigger] r.parent(c) is Some && r.alive(c) implies {
                let p = r.parent(c).unwrap();
                &&& r.alive(p)
                &&& p != c
                &&& r.children(p).contains(c)
            } by {
                assert(c != e);
                assert(m.parent(c) == r.parent(c));
            }
            assert forall|p: Entity| #[trigger] r.alive(p) implies r.children(p).no_duplicates() by {
                assert(m.alive(p));
            }
        },
    }
}


/// Appending an entity to a list.
pub proof fn lemma_push(s: Seq<Entity>, x: Entity)
    ensures
        forall|y: Entity| #[trigger] s.push(x).contains(y) <==> (s.contains(y) || y == x),
        s.no_duplicates() && !s.contains(x) ==> s.push(x).no_duplicates(),
{
    let t = s.push(x);
    assert(t[s.len() as int] == x);
    assert forall|y: Entity| #[trigger] t.contains(y) <==> (s.contains(y) || y == x) by {
        if t.contains(y) {
            let i = choose|i: int| 0 <= i < t.len() && t[i] == y;
            if i < s.len() {
                assert(s[i] == y);
            }
        }
        if s.contains(y) {
            let i = choose|i: int| 0 <= i < s.len() && s[i] == y;
            assert(t[i] == y);
        }
    }
    if s.no_duplicates() && !s.contains(x) {
        assert forall|i: int, j: int| 0 <= i < t.len() && 0 <= j < t.len() && i != j
            implies t[i] != t[j] by {
            if i < s.len() && j < s.len() {
                assert(t[i] == s[i] && t[j] == s[j]);
            } else if i < s.len() {
                assert(t[i] == s[i]);
            } else {
                assert(t[j] == s[j]);
            }
        }
    }
}

/// Removing the first occurrence of an absent entity changes nothing.
pub proof fn lemma_remove_absent(s: Seq<Entity>, x: Entity)
    requires
        !s.contains(x),
    ensures
        s.remove_value(x) == s,
{
    s.index_of_first_ensures(x);
}

/// Two worlds with the same live entities, `ChildOf` targets and `Children` lists are
/// consistent alike.
pub proof fn lemma_same_links(a: WorldModel, b: WorldModel)
    requires
        a.records.dom() == b.records.dom(),
        forall|y: Entity| #[trigger] a.alive(y) ==> a.parent(y) == b.parent(y) && a.children(y) == b.children(y),
    ensures
        a.is_consistent() == b.is_consistent(),
{
    if a.is_consistent() {
        assert forall|p: Entity, c: Entity| #[trigger] b.children(p).contains(c) && b.alive(p)
            implies b.alive(c) && b.parent(c) == Some(p) by {
            assert(a.alive(p));
            assert(a.children(p).contains(c));
            assert(a.alive(c));
        }
        assert forall|c: Entity| #[trigger] b.parent(c) is Some && b.alive(c) implies {
            let p = b.parent(c).unwrap();
            &&& b.alive(p)
            &&& p != c
            &&& b.children(p).contains(c)
        } by {
            assert(a.parent(c) == b.parent(c));
            let p = a.parent(c).unwrap();
            assert(a.children(p) == b.children(p));
        }
        assert forall|p: Entity| #[trigger] b.alive(p) implies b.children(p).no_duplicates() by {
            assert(a.alive(p));
        }
    }
    if b.is_consistent() {
        assert forall|p: Entity, c: Entity| #[trigger] a.children(p).contains(c) && a.alive(p)
            implies a.alive(c) && a.parent(c) == Some(p) by {
            assert(a.alive(p));
            assert(b.children(p).contains(c));
            assert(b.alive(c));
        }
        assert forall|c: Entity| #[trigger] a.parent(c) is Some && a.alive(c) implies {
            let p = a.parent(c).unwrap();
            &&& a.alive(p)
            &&& p != c
            &&& a.children(p).contains(c)
        } by {
            assert(a.parent(c) == b.parent(c));
            let p = a.parent(c).unwrap();
            assert(b.alive(p));
            assert(a.alive(p));
            assert(a.children(p) == b.children(p));
        }
        assert forall|p: Entity| #[trigger] a.alive(p) implies a.children(p).no_duplicates() by {
            assert(b.alive(p));
        }
    }
}

/// Inserting a `ChildOf` with its hooks running keeps the hierarchy consistent.
pub proof fn lemma_insert_parent_consistent(m: WorldModel, e: Entity, p: Entity)
    requires
        m.is_consistent(),
        m.alive(e),
    ensures
        m.insert_parent(e, p, RelationshipHookMode::Run).is_consistent(),
        m.insert_parent(e, p, RelationshipHookMode::Run).records.dom() == m.records.dom(),
{
    let r0 = m.remove_parent(e);
    lemma_remove_parent_consistent(m, e);
    let m1 = m.detach(e).set_parent(e, Some(p));
    assert(m1.records =~= r0.set_parent(e, Some(p)).records);
    let res = m.insert_parent(e, p, RelationshipHookMode::Run);
    if p == e || !m1.alive(p) {
        if m1.alive(p) {
            lemma_remove_absent(r0.children(p), e);
            assert(res.records =~= r0.set_children(e, r0.children(e)).records);
            lemma_same_links(r0, res);
        } else {
            assert(res.records =~= r0.records);
        }
    } else {
        let s0 = r0.children(p);
        lemma_push(s0, e);
        assert(res.records =~= r0.set_parent(e, Some(p)).set_children(p, s0.push(e)).records);
        assert(res.records.dom() =~= m.records.dom());
        assert forall|c: Entity| #[trigger] res.parent(c) is Some && res.alive(c) implies {
            let q = res.parent(c).unwrap();
            &&& res.alive(q)
            &&& q != c
            &&& res.children(q).contains(c)
        } by {
            if c != e {
                assert(r0.parent(c) == res.parent(c));
                let q = r0.parent(c).unwrap();
                assert(r0.children(q).contains(c));
            }
        }
        assert forall|q: Entity, c: Entity| #[trigger] res.children(q).contains(c) && res.alive(q)
            implies res.alive(c) && res.parent(c) == Some(q) by {
            if q == p {
                if c != e {
                    assert(r0.children(p).contains(c));
                }
            } else {
                assert(r0.children(q).contains(c));
                assert(!r0.children(q).contains(e));
            }
        }
        assert forall|q: Entity| #[trigger] res.alive(q) implies res.children(q).no_duplicates() by {
            assert(r0.alive(q));
        }
    }
}

/// `set_parent` to a live entity other than itself moves the entity under it, whatever
/// children the entity has: it points to the new parent, which has a `Children`
/// component listing it last; no other entity's `ChildOf` changes, and the entity
/// keeps its own children. Its former parent drops it from its list (losing its
/// `Children` if that empties it), and no other list changes. In a consistent world
/// the new parent's list is its old one with the entity moved to the end.
pub proof fn lemma_set_parent_moves(m: WorldModel, e: Entity, p: Entity)
    requires
        m.alive(e),
        m.alive(p),
        p != e,
    ensures
        ({
            let r = m.attach_if_alive(e, p);
            &&& r.records.dom() == m.records.dom()
            &&& r.parent(e) == Some(p)
            &&& r.children(p).last() == e
            &&& r.has_children(p)
            &&& forall|y: Entity| y != e ==> #[trigger] r.parent(y) == m.parent(y)
            &&& forall|y: Entity| #[trigger] r.components(y) == m.components(y)
            &&& m.parent(e) != Some(e) ==> r.children(e) == m.children(e) && r.has_children(e) == m.has_children(e)
            &&& m.is_consistent() ==> r.children(p) == m.children(p).remove_value(e).push(e)
            &&& forall|y: Entity| y != p && Some(y) != m.parent(e) ==> {
                &&& #[trigger] r.children(y) == m.children(y)
                &&& r.has_children(y) == m.has_children(y)
            }
            &&& ({
                let q = m.parent(e)->0;
                m.parent(e) is Some && q != p && m.alive(q) ==> {
                    &&& r.children(q) == m.children(q).remove_value(e)
                    &&& r.has_children(q) == (r.children(q).len() > 0)
                }
            })
        }),
{
    let r = m.attach_if_alive(e, p);
    let md = m.detach(e);
    assert(md.records.dom() =~= m.records.dom());
    assert(r == md.set_parent(e, Some(p)).set_children(p, md.children(p).push(e)));
    lemma_insert_parent_others(m, e, p);
    if m.is_consistent() {
        lemma_insert_attaches(m, e, p);
    }
}

/// `set_parent` of an entity to itself, in a consistent world, leaves it with no
/// `ChildOf`: its former parent no longer lists it, no other entity's `ChildOf`
/// changes, and it keeps its own children.
pub proof fn lemma_set_parent_self(m: WorldModel, e: Entity)
    requires
        m.is_consistent(),
        m.alive(e),
    ensures
        ({
            let r = m.attach_if_alive(e, e);
            &&& r.records.dom() == m.records.dom()
            &&& r.parent(e) is None
            &&& r.children(e) == m.children(e)
            &&& forall|y: Entity| #[trigger] r.alive(y) ==> !r.children(y).contains(e)
            &&& forall|y: Entity| y != e ==> #[trigger] r.parent(y) == m.parent(y)
            &&& r.is_consistent()
        }),
{
    lemma_invalid_child_of_removed(m, e, e);
    lemma_remove_parent_consistent(m, e);
    lemma_insert_parent_consistent(m, e, e);
    lemma_insert_parent_others(m, e, e);
    let r0 = m.remove_parent(e);
    if m.children(e).contains(e) {
        assert(m.parent(e) == Some(e));
    }
    assert(r0.children(e) == m.children(e));
}

/// A consistent world whose entities have a `Children` component exactly when their
/// list is not empty is one whose hierarchy its users see in step.
pub proof fn lemma_consistent_is_linked(m: WorldModel)
    requires
        m.is_consistent(),
        forall|p: Entity| #[trigger] m.alive(p) ==> m.has_children(p) == (m.children(p).len() > 0),
    ensures
        m.is_linked(),
{
    assert forall|p: Entity, c: Entity| #![trigger m.children(p).contains(c)]
        m.alive(p) && m.alive(c) implies (m.children(p).contains(c) <==> m.parent(c) == Some(p)) by {
        if m.parent(c) == Some(p) {
            assert(m.parent(c) is Some);
        }
    }
}

/// `set_parent` keeps the hierarchy as its users see it: if among live entities every
/// list holds exactly the entities that point to its owner, without duplicates, no
/// present `Children` is empty and no `ChildOf` points to its own entity or a dead one,
/// that stays so whatever parent is set.
pub proof fn lemma_set_parent_keeps_links(m: WorldModel, s: Entity, p: Entity)
    requires
        m.is_linked(),
        m.alive(s),
    ensures
        m.attach_if_alive(s, p).is_linked(),
{
    if m.alive(p) {
        let md = m.detach(s);
        assert(md.records.dom() =~= m.records.dom());
        assert forall|y: Entity| #[trigger] md.alive(y) && y != s implies !md.children(y).contains(s)
            && md.children(y).no_duplicates() && md.has_children(y) == (md.children(y).len() > 0) by {
            assert(m.alive(y));
            match m.parent(s) {
                Some(q) => {
                    if y == q {
                        assert(m.children(q).contains(s));
                        lemma_remove_value(m.children(q), s);
                    } else {
                        assert(!m.children(y).contains(s));
                    }
                },
                None => {
                    assert(!m.children(y).contains(s));
                },
            }
        }
        assert(!md.children(s).contains(s) && md.children(s).no_duplicates()
            && md.has_children(s) == (md.children(s).len() > 0)) by {
            assert(!m.children(s).contains(s));
            assert(m.parent(s) != Some(s));
        }
        assert forall|y: Entity, c: Entity| #[trigger] md.children(y).contains(c) && md.alive(y) && c != s
            implies m.children(y).contains(c) by {
            if m.parent(s) is Some && y == m.parent(s)->0 {
                lemma_remove_value(m.children(y), s);
            }
        }
        assert forall|y: Entity, c: Entity| #[trigger] m.children(y).contains(c) && m.alive(y) && c != s
            implies md.children(y).contains(c) by {
            if m.parent(s) is Some && y == m.parent(s)->0 {
                lemma_remove_value(m.children(y), s);
            }
        }
        let m1 = md.set_parent(s, Some(p));
        let r = m.attach_if_alive(s, p);
        if p == s {
            lemma_remove_absent(m1.children(s), s);
            assert(r.records =~= md.set_children(s, md.children(s)).set_parent(s, None).records);
        } else {
            lemma_push(m1.children(p), s);
            assert(r.records =~= m1.set_children(p, m1.children(p).push(s)).records);
        }
        assert(r.records.dom() =~= m.records.dom());
        assert forall|y: Entity, c: Entity| #![trigger r.children(y).contains(c)]
            r.alive(y) && r.alive(c) implies (r.children(y).contains(c) <==> r.parent(c) == Some(y)) by {
            assert(m.alive(y) && m.alive(c));
            if c != s {
                assert(r.parent(c) == m.parent(c));
                assert(m.children(y).contains(c) <==> m.parent(c) == Some(y));
                assert(r.children(y).contains(c) <==> md.children(y).contains(c));
            } else if y != p || p == s {
                assert(md.alive(y));
                assert(r.children(y) == md.children(y));
                assert(!md.children(y).contains(s));
            } else {
                assert(r.children(p) == m1.children(p).push(s));
                assert(r.children(p)[r.children(p).len() - 1] == s);
                assert(r.parent(s) == Some(p));
            }
        }
        assert forall|y: Entity| #[trigger] r.alive(y) implies {
            &&& r.children(y).no_duplicates()
            &&& r.has_children(y) == (r.children(y).len() > 0)
        } by {
            assert(md.alive(y));
        }
        assert forall|c: Entity| r.alive(c) && #[trigger] r.parent(c) is Some implies {
            &&& r.alive(r.parent(c)->0)
            &&& r.parent(c)->0 != c
        } by {
            if c != s {
                assert(r.parent(c) == m.parent(c));
            }
        }
    }
}

/// Extending a path that reaches `x` by a live entity that `x` lists.
pub proof fn lemma_reach_step(m: WorldModel, e: Entity, x: Entity, c: Entity)
    requires
        m.reaches(e, x),
        m.alive(c),
        m.children(x).contains(c),
    ensures
        m.reaches(e, c),
{
    let path = choose|path: Seq<Entity>| #[trigger] m.is_path(path) && path[0] == e && path.last() == x;
    let p2 = path.push(c);
    assert(p2[p2.len() - 2] == x);
    assert forall|i: int| 0 < i < p2.len() implies m.children(p2[i - 1]).contains(#[trigger] p2[i]) by {
        if i < p2.len() - 1 {
            assert(p2[i - 1] == path[i - 1]);
            assert(p2[i] == path[i]);
        }
    }
    assert(m.is_path(p2));
}


/// Removing first occurrences from a list without duplicates removes exactly the
/// given entities and keeps it without duplicates.
pub proof fn lemma_drop_firsts(s: Seq<Entity>, d: Set<Entity>)
    requires
        s.no_duplicates(),
    ensures
        drop_firsts(s, d).no_duplicates(),
        forall|y: Entity| #[trigger] drop_firsts(s, d).contains(y) <==> (s.contains(y) && !d.contains(y)),
    decreases s.len(),
{
    if s.len() > 0 {
        let t = s.drop_first();
        assert(forall|i: int| 0 <= i < t.len() ==> #[trigger] t[i] == s[i + 1]);
        assert(t.no_duplicates());
        assert(!t.contains(s[0])) by {
            if t.contains(s[0]) {
                let i = choose|i: int| 0 <= i < t.len() && t[i] == s[0];
                assert(s[i + 1] == s[0]);
            }
        }
        assert forall|y: Entity| s.contains(y) <==> (y == s[0] || t.contains(y)) by {
            if s.contains(y) && y != s[0] {
                let i = choose|i: int| 0 <= i < s.len() && s[i] == y;
                assert(t[i - 1] == y);
            }
            if t.contains(y) {
                let i = choose|i: int| 0 <= i < t.len() && t[i] == y;
                assert(s[i + 1] == y);
            }
            if y == s[0] {
                assert(s[0] == y);
            }
        }
        if d.contains(s[0]) {
            lemma_drop_firsts(t, d.remove(s[0]));
        } else {
            lemma_drop_firsts(t, d);
            let rest = drop_firsts(t, d);
            let out = seq![s[0]] + rest;
            assert(forall|i: int| 0 <= i < rest.len() ==> #[trigger] out[i + 1] == rest[i]);
            assert forall|y: Entity| #[trigger] out.contains(y) <==> (y == s[0] || rest.contains(y)) by {
                if out.contains(y) && y != s[0] {
                    let i = choose|i: int| 0 <= i < out.len() && out[i] == y;
                    assert(rest[i - 1] == y);
                }
                if rest.contains(y) {
                    let i = choose|i: int| 0 <= i < rest.len() && rest[i] == y;
                    assert(out[i + 1] == y);
                }
                if y == s[0] {
                    assert(out[0] == y);
                }
            }
            assert forall|i: int, j: int| 0 <= i < out.len() && 0 <= j < out.len() && i != j
                implies out[i] != out[j] by {
                if i == 0 && j > 0 {
                    assert(rest.contains(out[j]));
                } else if j == 0 && i > 0 {
                    assert(rest.contains(out[i]));
                } else if i > 0 && j > 0 {
                    assert(out[i] == rest[i - 1] && out[j] == rest[j - 1]);
                }
            }
        }
    }
}

/// With no duplicates in `l`, dropping the first occurrences of `d` keeps, in order,
/// exactly the entries that `f` accepts, when `f` rejects exactly the entries in `d`.
pub proof fn lemma_drop_firsts_filter(l: Seq<Entity>, d: Set<Entity>, f: spec_fn(Entity) -> bool)
    requires
        l.no_duplicates(),
        forall|i: int| 0 <= i < l.len() ==> (d.contains(#[trigger] l[i]) <==> !f(l[i])),
    ensures
        drop_firsts(l, d) == l.filter(f),
    decreases l.len(),
{
    reveal_with_fuel(Seq::filter, 2);
    if l.len() > 0 {
        let a = l[0];
        let t = l.drop_first();
        assert(forall|i: int| 0 <= i < t.len() ==> #[trigger] t[i] == l[i + 1]);
        assert(t.no_duplicates());
        assert(l =~= seq![a] + t);
        Seq::filter_distributes_over_add(seq![a], t, f);
        assert(seq![a].drop_last() =~= Seq::<Entity>::empty());
        assert(seq![a].last() == a);
        let d2 = if d.contains(a) { d.remove(a) } else { d };
        assert forall|i: int| 0 <= i < t.len() implies (d2.contains(#[trigger] t[i]) <==> !f(t[i])) by {
            assert(l[i + 1] != l[0]);
        }
        lemma_drop_firsts_filter(t, d2, f);
        if d.contains(a) {
            assert(!f(a));
            assert(seq![a].filter(f) =~= Seq::<Entity>::empty());
            assert(Seq::<Entity>::empty() + t.filter(f) =~= t.filter(f));
        } else {
            assert(f(a));
            assert(seq![a].filter(f) =~= seq![a]);
        }
    }
}

/// Despawning an entity keeps every survivor's list in order: it is the old list less
/// the first occurrence of each despawned entity that pointed to the survivor; in a
/// consistent world, exactly the old list with the despawned entities filtered out.
/// A survivor that lost a child keeps its `Children` only if the list is not empty;
/// the others keep theirs as it was. Despawning a dead entity changes nothing.
pub proof fn lemma_despawn_keeps_order(m: WorldModel, e: Entity)
    ensures
        !m.alive(e) ==> m.despawn(e) == m,
        m.alive(e) ==> forall|y: Entity| #[trigger] m.despawn(e).alive(y) ==> {
            &&& m.despawn(e).children(y) == drop_firsts(
                m.children(y),
                Set::new(|x: Entity| m.subtree(e).contains(x) && m.parent(x) == Some(y)),
            )
            &&& m.despawn(e).parent(y) == m.parent(y)
            &&& m.despawn(e).components(y) == m.components(y)
            &&& m.despawn(e).has_children(y) == if exists|x: Entity| m.subtree(e).contains(x) && m.parent(x) == Some(y) {
                m.despawn(e).children(y).len() > 0
            } else {
                m.has_children(y)
            }
        },
        m.alive(e) && m.is_consistent() ==> forall|y: Entity| #[trigger] m.despawn(e).alive(y)
            ==> m.despawn(e).children(y) == m.children(y).filter(|x: Entity| !m.subtree(e).contains(x)),
{
    if m.alive(e) && m.is_consistent() {
        let st = m.subtree(e);
        let r = m.despawn(e);
        assert forall|y: Entity| #[trigger] r.alive(y)
            implies r.children(y) == m.children(y).filter(|x: Entity| !m.subtree(e).contains(x)) by {
            let d = Set::new(|x: Entity| st.contains(x) && m.parent(x) == Some(y));
            let l = m.children(y);
            assert(m.alive(y));
            assert forall|i: int| 0 <= i < l.len() implies (d.contains(#[trigger] l[i])
                <==> !(|x: Entity| !m.subtree(e).contains(x))(l[i])) by {
                assert(l.contains(l[i]));
                assert(m.parent(l[i]) == Some(y));
            }
            lemma_drop_firsts_filter(l, d, |x: Entity| !m.subtree(e).contains(x));
        }
    }
}

/// Despawning an entity keeps the hierarchy consistent.
pub proof fn lemma_despawn_consistent(m: WorldModel, e: Entity)
    requires
        m.is_consistent(),
    ensures
        m.despawn(e).is_consistent(),
        m.despawn(e).next == m.next,
        forall|x: Entity| #[trigger] m.despawn(e).alive(x) ==> m.alive(x),
        m.wf() ==> m.despawn(e).wf(),
{
    if m.alive(e) {
        let s = m.subtree(e);
        let r = m.despawn(e);
        assert forall|y: Entity| #[trigger] r.alive(y) implies {
            let d = Set::new(|x: Entity| s.contains(x) && m.parent(x) == Some(y));
            &&& r.children(y) == drop_firsts(m.children(y), d)
            &&& r.parent(y) == m.parent(y)
            &&& m.alive(y)
            &&& !s.contains(y)
        } by {}
        assert forall|c: Entity| #[trigger] r.parent(c) is Some && r.alive(c) implies {
            let q = r.parent(c).unwrap();
            &&& r.alive(q)
            &&& q != c
            &&& r.children(q).contains(c)
        } by {
            let q = m.parent(c).unwrap();
            assert(m.children(q).contains(c));
            if s.contains(q) {
                lemma_reach_step(m, e, q, c);
            }
            let d = Set::new(|x: Entity| s.contains(x) && m.parent(x) == Some(q));
            lemma_drop_firsts(m.children(q), d);
        }
        assert forall|q: Entity, c: Entity| #[trigger] r.children(q).contains(c) && r.alive(q)
            implies r.alive(c) && r.parent(c) == Some(q) by {
            let d = Set::new(|x: Entity| s.contains(x) && m.parent(x) == Some(q));
            lemma_drop_firsts(m.children(q), d);
            assert(m.children(q).contains(c));
        }
        assert forall|q: Entity| #[trigger] r.alive(q) implies r.children(q).no_duplicates() by {
            let d = Set::new(|x: Entity| s.contains(x) && m.parent(x) == Some(q));
            lemma_drop_firsts(m.children(q), d);
        }
    }
}


/// Spawning an entity keeps the hierarchy consistent and the world well formed; the
/// new entity was not live before.
pub proof fn lemma_spawn_consistent(m: WorldModel, components: Set<u64>)
    requires
        m.is_consistent(),
        m.wf(),
        m.next < Entity::PLACEHOLDER_INDEX,
    ensures
        m.spawn(components).is_consistent(),
        m.spawn(components).wf(),
        !m.alive(m.next_entity()),
        m.spawn(components).records.dom() == m.records.dom().insert(m.next_entity()),
{
    let n = m.next_entity();
    let r = m.spawn(components);
    assert(n.index == m.next);
    assert(!m.alive(n));
    assert(r.records.dom() =~= m.records.dom().insert(n));
    assert forall|c: Entity| #[trigger] r.parent(c) is Some && r.alive(c) implies {
        let q = r.parent(c).unwrap();
        &&& r.alive(q)
        &&& q != c
        &&& r.children(q).contains(c)
    } by {
        assert(c != n);
        let q = m.parent(c).unwrap();
        assert(m.children(q).contains(c));
    }
    assert forall|q: Entity, c: Entity| #[trigger] r.children(q).contains(c) && r.alive(q)
        implies r.alive(c) && r.parent(c) == Some(q) by {
        if q == n {
            assert(r.children(q).len() == 0);
        } else {
            assert(m.children(q).contains(c));
            assert(c != n);
        }
    }
    assert forall|q: Entity| #[trigger] r.alive(q) implies r.children(q).no_duplicates() by {
        if q == n {
            assert(r.children(q).len() == 0);
        } else {
            assert(m.alive(q));
        }
    }
    assert forall|x: Entity| #[trigger] r.alive(x) implies x.index < r.next by {
        if x != n {
            assert(m.alive(x));
        }
    }
}

/// Spawning with a `ChildOf` keeps the hierarchy consistent.
pub proof fn lemma_spawn_with_parent_consistent(m: WorldModel, components: Set<u64>, parent: Option<Entity>)
    requires
        m.is_consistent(),
        m.wf(),
        m.next < Entity::PLACEHOLDER_INDEX,
    ensures
        m.spawn_with_parent(components, parent).is_consistent(),
        m.spawn_with_parent(components, parent).wf(),
        m.spawn_with_parent(components, parent).next == m.next + 1,
        m.spawn_with_parent(components, parent).records.dom() == m.records.dom().insert(m.next_entity()),
{
    lemma_spawn_consistent(m, components);
    let m1 = m.spawn(components);
    match parent {
        Some(p) => {
            lemma_insert_parent_consistent(m1, m.next_entity(), p);
            let m2 = m1.insert_parent(m.next_entity(), p, RelationshipHookMode::Run);
            assert(m2.next == m1.next);
            assert forall|x: Entity| #[trigger] m2.alive(x) implies x.index < m2.next by {
                assert(m1.alive(x));
            }
        },
        None => {},
    }
}

/// Adding children keeps the hierarchy consistent.
pub proof fn lemma_add_children_consistent(m: WorldModel, p: Entity, cs: Seq<Entity>)
    requires
        m.is_consistent(),
        forall|i: int| 0 <= i < cs.len() ==> m.alive(#[trigger] cs[i]),
    ensures
        m.add_children(p, cs).is_consistent(),
        m.add_children(p, cs).records.dom() == m.records.dom(),
        m.add_children(p, cs).next == m.next,
    decreases cs.len(),
{
    if cs.len() > 0 {
        let pre = cs.drop_last();
        assert(forall|i: int| 0 <= i < pre.len() ==> #[trigger] pre[i] == cs[i]);
        lemma_add_children_consistent(m, p, pre);
        assert(m.alive(cs[cs.len() - 1]));
        lemma_insert_parent_consistent(m.add_children(p, pre), cs.last(), p);
    }
}

/// Giving a live entity a `Children` component changes no link, component or list, and
/// only the presence of that entity's `Children`.
pub proof fn lemma_mark_children(m: WorldModel, e: Entity)
    requires
        m.alive(e),
    ensures
        m.mark_children(e).records.dom() == m.records.dom(),
        m.mark_children(e).next == m.next,
        m.mark_children(e).has_children(e),
        forall|y: Entity| #[trigger] m.alive(y) ==> {
            &&& m.mark_children(e).parent(y) == m.parent(y)
            &&& m.mark_children(e).children(y) == m.children(y)
            &&& m.mark_children(e).components(y) == m.components(y)
            &&& y != e ==> m.mark_children(e).has_children(y) == m.has_children(y)
        },
        m.is_consistent() ==> m.mark_children(e).is_consistent(),
        m.wf() ==> m.mark_children(e).wf(),
{
    let r = m.mark_children(e);
    assert(r.records.dom() =~= m.records.dom());
    lemma_same_links(m, r);
    if m.wf() {
        assert forall|x: Entity| #[trigger] r.alive(x) implies x.index < r.next by {
            assert(m.alive(x));
        }
    }
}

/// Spawning a bundle keeps the hierarchy consistent and the world well formed.
pub proof fn lemma_spawn_bundle_consistent(m: WorldModel, b: Bundle, nested: Option<Entity>)
    requires
        m.is_consistent(),
        m.wf(),
        m.next + bundle_count(b) <= Entity::PLACEHOLDER_INDEX,
    ensures
        m.spawn_bundle(b, nested).is_consistent(),
        m.spawn_bundle(b, nested).wf(),
        m.spawn_bundle(b, nested).next == m.next + bundle_count(b),
    decreases b,
{
    let e = m.next_entity();
    lemma_spawn_with_parent_consistent(m, b.components@.to_set(), bundle_parent(b, nested));
    let m1 = m.spawn_with_parent(b.components@.to_set(), bundle_parent(b, nested));
    lemma_mark_children(m1, e);
    let m2 = if b.children_component { m1.mark_children(e) } else { m1 };
    lemma_spawn_related_consistent(m2, b.related@, e);
}

/// Spawning bundles as children of an entity keeps the hierarchy consistent.
pub proof fn lemma_spawn_related_consistent(m: WorldModel, bs: Seq<Bundle>, p: Entity)
    requires
        m.is_consistent(),
        m.wf(),
        m.next + related_count(bs) <= Entity::PLACEHOLDER_INDEX,
    ensures
        m.spawn_related(bs, p).is_consistent(),
        m.spawn_related(bs, p).wf(),
        m.spawn_related(bs, p).next == m.next + related_count(bs),
    decreases bs,
{
    if bs.len() > 0 {
        lemma_spawn_related_consistent(m, bs.drop_last(), p);
        lemma_spawn_bundle_consistent(m.spawn_related(bs.drop_last(), p), bs.last(), Some(p));
    }
}

/// Every command keeps a consistent, well formed world consistent and well formed.
pub proof fn lemma_command_consistent(m: WorldModel, c: Command)
    requires
        m.is_consistent(),
        m.wf(),
        m.command_ok(c),
    ensures
        m.apply(c).wf(),
        c matches Command::Insert { mode, .. } && mode != RelationshipHookMode::Run
            || m.apply(c).is_consistent(),
{
    match c {
        Command::Spawn { bundle, under } => {
            lemma_spawn_bundle_consistent(m, bundle, under);
        },
        Command::Insert { entity, child_of, mode } => {
            if mode == RelationshipHookMode::Run {
                lemma_insert_parent_consistent(m, entity, child_of.parent);
            }
            assert(m.apply(c).records.dom() =~= m.records.dom());
            assert forall|x: Entity| #[trigger] m.apply(c).alive(x) implies x.index < m.apply(c).next by {
                assert(m.alive(x));
            }
        },
        Command::RemoveChildOf { entity } => {
            lemma_remove_parent_consistent(m, entity);
            assert forall|x: Entity| #[trigger] m.apply(c).alive(x) implies x.index < m.apply(c).next by {
                assert(m.alive(x));
            }
        },
        Command::AddChildren { parent, children } => {
            lemma_add_children_consistent(m, parent, children@);
            assert forall|x: Entity| #[trigger] m.apply(c).alive(x) implies x.index < m.apply(c).next by {
                assert(m.alive(x));
            }
        },
        Command::Despawn { entity } => {
            lemma_despawn_consistent(m, entity);
        },
        Command::SetParent { entity, parent } => {
            if m.alive(parent) {
                lemma_insert_parent_consistent(m, entity, parent);
                assert forall|x: Entity| #[trigger] m.apply(c).alive(x) implies x.index < m.apply(c).next by {
                    assert(m.alive(x));
                }
            }
        },
    }
}


/// Applying commands that all run their hooks keeps a consistent, well formed world
/// consistent and well formed.
pub proof fn lemma_commands_consistent(m: WorldModel, cs: Seq<Command>)
    requires
        m.is_consistent(),
        m.wf(),
        m.all_ok(cs),
        forall|i: int| 0 <= i < cs.len() ==> !(#[trigger] cs[i] matches Command::Insert { mode, .. }
            && mode != RelationshipHookMode::Run),
    ensures
        m.apply_all(cs).is_consistent(),
        m.apply_all(cs).wf(),
    decreases cs.len(),
{
    if cs.len() > 0 {
        let pre = cs.drop_last();
        assert(forall|i: int| 0 <= i < pre.len() ==> #[trigger] pre[i] == cs[i]);
        lemma_commands_consistent(m, pre);
        assert(cs.last() == cs[cs.len() - 1]);
        lemma_command_consistent(m.apply_all(pre), cs.last());
    }
}

/// Inserting `ChildOf { parent: p }` on `e`, with `p` a live entity other than `e`, in a
/// consistent world: `e` points to `p`, `p` lists `e` last (having dropped it from where
/// it stood, if it was there), and no other entity lists `e`.
pub proof fn lemma_insert_attaches(m: WorldModel, e: Entity, p: Entity)
    requires
        m.is_consistent(),
        m.alive(e),
        m.alive(p),
        p != e,
    ensures
        m.insert_parent(e, p, RelationshipHookMode::Run).parent(e) == Some(p),
        m.insert_parent(e, p, RelationshipHookMode::Run).children(p) == m.children(p).remove_value(e).push(e),
        m.insert_parent(e, p, RelationshipHookMode::Run).children(p).last() == e,
        forall|y: Entity| y != p && #[trigger] m.insert_parent(e, p, RelationshipHookMode::Run).alive(y)
            ==> !m.insert_parent(e, p, RelationshipHookMode::Run).children(y).contains(e),
{
    lemma_remove_parent_consistent(m, e);
    let r0 = m.remove_parent(e);
    let m1 = m.detach(e).set_parent(e, Some(p));
    assert(m1.records =~= r0.set_parent(e, Some(p)).records);
    if m.parent(e) != Some(p) {
        if m.children(p).contains(e) {
            assert(m.parent(e) == Some(p));
        }
        lemma_remove_absent(m.children(p), e);
    }
    let res = m.insert_parent(e, p, RelationshipHookMode::Run);
    assert(res.records =~= r0.set_parent(e, Some(p)).set_children(p, r0.children(p).push(e)).records);
    assert forall|y: Entity| y != p && #[trigger] res.alive(y) implies !res.children(y).contains(e) by {
        assert(r0.alive(y));
    }
}

/// Replacing a `ChildOf` in a consistent world: the former parent no longer lists the
/// entity, and keeps its other children in order.
pub proof fn lemma_insert_leaves_old_parent(m: WorldModel, e: Entity, p: Entity, q: Entity)
    requires
        m.is_consistent(),
        m.alive(e),
        m.parent(e) == Some(q),
        q != p,
    ensures
        m.insert_parent(e, p, RelationshipHookMode::Run).children(q) == m.children(q).remove_value(e),
        !m.insert_parent(e, p, RelationshipHookMode::Run).children(q).contains(e),
{
    lemma_remove_parent_consistent(m, e);
    let r0 = m.remove_parent(e);
    let m1 = m.detach(e).set_parent(e, Some(p));
    assert(m1.records =~= r0.set_parent(e, Some(p)).records);
    if p == e && m1.alive(p) {
        lemma_remove_absent(r0.children(p), e);
    }
    lemma_remove_value(m.children(q), e);
}

/// An invalid `ChildOf` (pointing to the entity itself or to a dead entity) removes
/// itself: afterwards the entity has no `ChildOf`, and the world is as if the former
/// one had been removed.
pub proof fn lemma_invalid_child_of_removed(m: WorldModel, e: Entity, p: Entity)
    requires
        m.is_consistent(),
        m.alive(e),
        p == e || !m.alive(p),
    ensures
        m.insert_parent(e, p, RelationshipHookMode::Run).parent(e) is None,
        p != e ==> m.insert_parent(e, p, RelationshipHookMode::Run) == m.remove_parent(e),
        p == e ==> m.insert_parent(e, p, RelationshipHookMode::Run)
            == m.remove_parent(e).set_children(e, m.children(e)),
{
    lemma_remove_parent_consistent(m, e);
    let r0 = m.remove_parent(e);
    let m1 = m.detach(e).set_parent(e, Some(p));
    assert(m1.records =~= r0.set_parent(e, Some(p)).records);
    if m1.alive(p) {
        lemma_remove_absent(r0.children(p), e);
        if m.children(e).contains(e) {
            assert(m.parent(e) == Some(e));
        }
        assert(r0.children(e) == m.children(e));
        assert(m.insert_parent(e, p, RelationshipHookMode::Run).records
            =~= r0.set_children(e, m.children(e)).records);
    } else {
        assert(m.insert_parent(e, p, RelationshipHookMode::Run).records =~= r0.records);
    }
}

/// Inserting a `ChildOf` without its hooks changes only that component: every
/// `Children` component, present or not, and every list and other component stay as
/// they were.
pub proof fn lemma_skip_keeps_children(m: WorldModel, e: Entity, p: Entity, mode: RelationshipHookMode)
    requires
        m.alive(e),
        mode != RelationshipHookMode::Run,
    ensures
        m.insert_parent(e, p, mode).parent(e) == Some(p),
        m.insert_parent(e, p, mode).records.dom() == m.records.dom(),
        forall|y: Entity| #[trigger] m.insert_parent(e, p, mode).children(y) == m.children(y),
        forall|y: Entity| y != e ==> #[trigger] m.insert_parent(e, p, mode).parent(y) == m.parent(y),
        forall|y: Entity| #[trigger] m.insert_parent(e, p, mode).has_children(y) == m.has_children(y),
        forall|y: Entity| #[trigger] m.insert_parent(e, p, mode).components(y) == m.components(y),
{
    assert(m.insert_parent(e, p, mode).records.dom() =~= m.records.dom());
}

/// Despawning a live entity removes exactly the entities it reaches through
/// `Children`; in a consistent world that is the entity, its children, and theirs.
pub proof fn lemma_despawn_removes_subtree(m: WorldModel, e: Entity)
    requires
        m.alive(e),
    ensures
        forall|x: Entity| #[trigger] m.despawn(e).alive(x) <==> (m.alive(x) && !m.reaches(e, x)),
        !m.despawn(e).alive(e),
        m.is_consistent() ==> forall|x: Entity, c: Entity|
            #![trigger m.reaches(e, x), m.parent(c)]
            m.reaches(e, x) && m.alive(c) && m.parent(c) == Some(x) ==> !m.despawn(e).alive(c),
{
    assert(m.is_path(seq![e]));
    assert(m.reaches(e, e));
    if m.is_consistent() {
        assert forall|x: Entity, c: Entity|
            #![trigger m.reaches(e, x), m.parent(c)]
            m.reaches(e, x) && m.alive(c) && m.parent(c) == Some(x) implies !m.despawn(e).alive(c) by {
            assert(m.children(x).contains(c));
            lemma_reach_step(m, e, x, c);
        }
    }
}

/// Adding children in a consistent world: every added entity other than the parent
/// ends up pointing to the parent and listed by it.
pub proof fn lemma_add_children_attaches(m: WorldModel, p: Entity, cs: Seq<Entity>)
    requires
        m.is_consistent(),
        m.alive(p),
        forall|i: int| 0 <= i < cs.len() ==> m.alive(#[trigger] cs[i]) && cs[i] != p,
    ensures
        forall|i: int| 0 <= i < cs.len() ==> {
            &&& m.add_children(p, cs).parent(#[trigger] cs[i]) == Some(p)
            &&& m.add_children(p, cs).children(p).contains(cs[i])
        },
    decreases cs.len(),
{
    if cs.len() > 0 {
        let pre = cs.drop_last();
        assert(forall|i: int| 0 <= i < pre.len() ==> #[trigger] pre[i] == cs[i]);
        lemma_add_children_attaches(m, p, pre);
        lemma_add_children_consistent(m, p, pre);
        let m1 = m.add_children(p, pre);
        let x = cs.last();
        assert(x == cs[cs.len() - 1]);
        lemma_insert_attaches(m1, x, p);
        lemma_remove_value(m1.children(p), x);
        lemma_push(m1.children(p).remove_value(x), x);
        assert forall|i: int| 0 <= i < cs.len() implies {
            &&& m.add_children(p, cs).parent(#[trigger] cs[i]) == Some(p)
            &&& m.add_children(p, cs).children(p).contains(cs[i])
        } by {
            if i < cs.len() - 1 {
                assert(pre[i] == cs[i]);
                if cs[i] != x {
                    assert(m1.children(p).contains(cs[i]));
                }
            }
        }
    }
}

/// What the queued commands of `EntityCommands` do once applied is what the same
/// calls on `EntityWorldMut` do at once, and a queue applies in order.
pub proof fn lemma_commands_match_direct(
    m: WorldModel,
    cs: Seq<Command>,
    e: Entity,
    child_of: crate::hierarchy::ChildOf,
    mode: RelationshipHookMode,
    children: Vec<Entity>,
    bundle: Bundle,
    under: Option<Entity>,
)
    ensures
        m.apply_all(cs.push(Command::Insert { entity: e, child_of, mode }))
            == m.apply_all(cs).insert_parent(e, child_of.parent, mode),
        m.apply_all(cs.push(Command::RemoveChildOf { entity: e })) == m.apply_all(cs).remove_parent(e),
        m.apply_all(cs.push(Command::AddChildren { parent: e, children }))
            == m.apply_all(cs).add_children(e, children@),
        m.apply_all(cs.push(Command::Spawn { bundle, under })) == m.apply_all(cs).spawn_bundle(bundle, under),
        m.apply_all(cs.push(Command::Despawn { entity: e })) == m.apply_all(cs).despawn(e),
        m.apply_all(cs.push(Command::SetParent { entity: e, parent: child_of.parent }))
            == m.apply_all(cs).attach_if_alive(e, child_of.parent),
{
    assert(cs.push(Command::SetParent { entity: e, parent: child_of.parent }).drop_last() =~= cs);
    assert(cs.push(Command::Insert { entity: e, child_of, mode }).drop_last() =~= cs);
    assert(cs.push(Command::RemoveChildOf { entity: e }).drop_last() =~= cs);
    assert(cs.push(Command::AddChildren { parent: e, children }).drop_last() =~= cs);
    assert(cs.push(Command::Spawn { bundle, under }).drop_last() =~= cs);
    assert(cs.push(Command::Despawn { entity: e }).drop_last() =~= cs);
}


/// Spawning with a `ChildOf` leaves every earlier entity as it was, but for the target
/// of a valid `ChildOf`, which lists the new entity last.
pub proof fn lemma_spawn_with_parent_frame(m: WorldModel, components: Set<u64>, parent: Option<Entity>)
    requires
        m.wf(),
        m.next < Entity::PLACEHOLDER_INDEX,
    ensures
        ({
            let r = m.spawn_with_parent(components, parent);
            let n = m.next_entity();
            &&& r.alive(n)
            &&& r.children(n) == Seq::<Entity>::empty()
            &&& !r.has_children(n)
            &&& r.components(n) == components
            &&& forall|y: Entity| #[trigger] m.alive(y) ==> {
                &&& r.alive(y)
                &&& r.parent(y) == m.parent(y)
                &&& r.components(y) == m.components(y)
                &&& Some(y) != parent ==> r.children(y) == m.children(y)
                &&& Some(y) != parent ==> r.has_children(y) == m.has_children(y)
            }
            &&& (parent is Some && m.alive(parent.unwrap())) ==> {
                &&& r.parent(n) == parent
                &&& r.children(parent.unwrap()) == m.children(parent.unwrap()).push(n)
                &&& r.has_children(parent.unwrap())
            }
            &&& !(parent is Some && m.alive(parent.unwrap())) ==> r.parent(n) is None
        }),
{
    let n = m.next_entity();
    let m1 = m.spawn(components);
    assert(n.index == m.next);
    assert(!m.alive(n));
    assert(m1.children(n) =~= Seq::<Entity>::empty());
    match parent {
        Some(p) => {
            let md = m1.detach(n);
            assert(md.records =~= m1.records);
            let m2 = md.set_parent(n, Some(p));
            if p == n {
                lemma_remove_absent(m2.children(n), n);
                assert(m1.insert_parent(n, p, RelationshipHookMode::Run).records
                    =~= m2.set_parent(n, None).records);
            } else if !m2.alive(p) {
                assert(m1.insert_parent(n, p, RelationshipHookMode::Run).records
                    =~= m2.set_parent(n, None).records);
            } else {
                assert(m.alive(p));
            }
        },
        None => {},
    }
}

/// Spawning bundles under `t` leaves every earlier entity as it was, but for the list
/// of `t`; all earlier entities stay live.
pub proof fn lemma_spawn_related_frame(m: WorldModel, bs: Seq<Bundle>, t: Entity)
    requires
        m.wf(),
        m.next + related_count(bs) <= Entity::PLACEHOLDER_INDEX,
    ensures
        ({
            let r = m.spawn_related(bs, t);
            forall|y: Entity| #[trigger] m.alive(y) ==> {
                &&& r.alive(y)
                &&& r.parent(y) == m.parent(y)
                &&& r.components(y) == m.components(y)
                &&& y != t ==> r.children(y) == m.children(y)
                &&& y != t ==> r.has_children(y) == m.has_children(y)
            }
        }),
        bs.len() > 0 && m.alive(t) ==> m.spawn_related(bs, t).has_children(t),
        m.spawn_related(bs, t).wf(),
        m.spawn_related(bs, t).next == m.next + related_count(bs),
    decreases bs,
{
    if bs.len() > 0 {
        let pre = bs.drop_last();
        lemma_spawn_related_frame(m, pre, t);
        let m1 = m.spawn_related(pre, t);
        lemma_spawn_bundle_frame(m1, bs.last(), Some(t));
    }
}

/// Spawning a bundle leaves every earlier entity as it was, but for the target of its
/// `ChildOf` (or the entity it is spawned under), which lists the new entity last and
/// has a `Children` component; the new entity points to that target when the target
/// is live, and has a `Children` component only if the bundle asks for one or spawns
/// related bundles under it.
pub proof fn lemma_spawn_bundle_frame(m: WorldModel, b: Bundle, nested: Option<Entity>)
    requires
        m.wf(),
        m.next + bundle_count(b) <= Entity::PLACEHOLDER_INDEX,
    ensures
        ({
            let r = m.spawn_bundle(b, nested);
            let n = m.next_entity();
            &&& r.alive(n)
            &&& r.components(n) == b.components@.to_set()
            &&& forall|y: Entity| #[trigger] m.alive(y) ==> {
                &&& r.alive(y)
                &&& r.parent(y) == m.parent(y)
                &&& r.components(y) == m.components(y)
                &&& Some(y) != bundle_parent(b, nested) ==> r.children(y) == m.children(y)
                &&& Some(y) != bundle_parent(b, nested) ==> r.has_children(y) == m.has_children(y)
            }
            &&& (bundle_parent(b, nested) is Some && m.alive(bundle_parent(b, nested).unwrap())) ==> {
                &&& r.parent(n) == bundle_parent(b, nested)
                &&& r.children(bundle_parent(b, nested).unwrap()) == m.children(bundle_parent(b, nested).unwrap()).push(n)
                &&& r.has_children(bundle_parent(b, nested).unwrap())
            }
            &&& r.has_children(n) == (b.children_component || b.related@.len() > 0)
            &&& !(bundle_parent(b, nested) is Some && m.alive(bundle_parent(b, nested).unwrap())) ==> r.parent(n) is None
        }),
        m.spawn_bundle(b, nested).wf(),
        m.spawn_bundle(b, nested).next == m.next + bundle_count(b),
    decreases b,
{
    let n = m.next_entity();
    let comps = b.components@.to_set();
    let bp = bundle_parent(b, nested);
    lemma_spawn_with_parent_frame(m, comps, bp);
    let m1 = m.spawn_with_parent(comps, bp);
    assert(m1.next == m.next + 1);
    assert forall|x: Entity| #[trigger] m1.alive(x) implies x.index < m1.next by {
        if x != n {
            assert(m.alive(x));
        }
    }
    lemma_mark_children(m1, n);
    let m2 = if b.children_component { m1.mark_children(n) } else { m1 };
    assert(m.spawn_bundle(b, nested) == m2.spawn_related(b.related@, n));
    lemma_spawn_related_frame(m2, b.related@, n);
    assert(m1.alive(n) && m2.alive(n));
    assert forall|y: Entity| #[trigger] m.alive(y) implies m1.alive(y) && m2.alive(y) by {}
    if bp is Some && m.alive(bp.unwrap()) {
        assert(m1.alive(bp.unwrap()) && m2.alive(bp.unwrap()));
    }
    assert(!m.alive(n)) by {
        assert(n.index == m.next);
    }
}


/// `drop_firsts` with nothing of `d` in the list changes nothing.
pub proof fn lemma_drop_firsts_none(s: Seq<Entity>, d: Set<Entity>)
    requires
        forall|i: int| 0 <= i < s.len() ==> !d.contains(#[trigger] s[i]),
    ensures
        drop_firsts(s, d) == s,
    decreases s.len(),
{
    if s.len() > 0 {
        let t = s.drop_first();
        assert(forall|i: int| 0 <= i < t.len() ==> #[trigger] t[i] == s[i + 1]);
        lemma_drop_firsts_none(t, d);
        assert(seq![s[0]] + t =~= s);
    }
}

/// Removing the first occurrence of `c` is `drop_firsts` of `{c}`.
pub proof fn lemma_remove_value_is_drop_first(s: Seq<Entity>, c: Entity)
    ensures
        s.remove_value(c) == drop_firsts(s, set![c]),
    decreases s.len(),
{
    s.index_of_first_ensures(c);
    if s.len() > 0 {
        let t = s.drop_first();
        assert(forall|i: int| 0 <= i < t.len() ==> #[trigger] t[i] == s[i + 1]);
        t.index_of_first_ensures(c);
        if s[0] == c {
            assert(set![c].remove(c) =~= Set::<Entity>::empty());
            lemma_drop_firsts_none(t, Set::<Entity>::empty());
            assert(s.index_of_first(c) == Some(0int));
            assert(s.remove(0) =~= t);
        } else {
            lemma_remove_value_is_drop_first(t, c);
            match s.index_of_first(c) {
                Some(i) => {
                    assert(i >= 1);
                    assert(t[i - 1] == c);
                    assert(t.contains(c));
                    let j = t.index_of_first(c).unwrap();
                    assert(s[j + 1] == c);
                    assert(j == i - 1);
                    assert(s.remove(i) =~= seq![s[0]] + t.remove(i - 1));
                },
                None => {
                    if t.contains(c) {
                        let k = choose|k: int| 0 <= k < t.len() && t[k] == c;
                        assert(s[k + 1] == c);
                    }
                    assert(seq![s[0]] + t =~= s);
                },
            }
        }
    }
}

/// Dropping first occurrences of `d1`, then of one more entity `c`, is dropping
/// those of `d1` and `c` at once.
pub proof fn lemma_drop_firsts_compose(s: Seq<Entity>, d1: Set<Entity>, c: Entity)
    requires
        !d1.contains(c),
    ensures
        drop_firsts(drop_firsts(s, d1), set![c]) == drop_firsts(s, d1.insert(c)),
    decreases s.len(),
{
    if s.len() == 0 {
    } else {
        let t = s.drop_first();
        let s0 = s[0];
        if d1.contains(s0) {
            lemma_drop_firsts_compose(t, d1.remove(s0), c);
            assert(d1.remove(s0).insert(c) =~= d1.insert(c).remove(s0));
        } else if s0 == c {
            let y = drop_firsts(t, d1);
            let x = seq![c] + y;
            assert(x.drop_first() =~= y);
            assert(set![c].remove(c) =~= Set::<Entity>::empty());
            lemma_drop_firsts_none(y, Set::<Entity>::empty());
            assert(d1.insert(c).remove(c) =~= d1);
        } else {
            lemma_drop_firsts_compose(t, d1, c);
            let y = drop_firsts(t, d1);
            let x = seq![s0] + y;
            assert(x.drop_first() =~= y);
        }
    }
}

/// Dropping first occurrences from `a + b`, where `b` holds nothing of `d`.
pub proof fn lemma_drop_firsts_concat_left(a: Seq<Entity>, b: Seq<Entity>, d: Set<Entity>)
    requires
        forall|i: int| 0 <= i < b.len() ==> !d.contains(#[trigger] b[i]),
    ensures
        drop_firsts(a + b, d) == drop_firsts(a, d) + b,
    decreases a.len(),
{
    if a.len() == 0 {
        assert(a + b =~= b);
        lemma_drop_firsts_none(b, d);
        assert(Seq::<Entity>::empty() + b =~= b);
    } else {
        let t = a.drop_first();
        assert((a + b).drop_first() =~= t + b);
        assert((a + b)[0] == a[0]);
        if d.contains(a[0]) {
            lemma_drop_firsts_concat_left(t, b, d.remove(a[0]));
        } else {
            lemma_drop_firsts_concat_left(t, b, d);
            assert(seq![a[0]] + (drop_firsts(t, d) + b) =~= (seq![a[0]] + drop_firsts(t, d)) + b);
        }
    }
}

/// Dropping first occurrences from `a + b`, where `a` holds nothing of `d`.
pub proof fn lemma_drop_firsts_concat_right(a: Seq<Entity>, b: Seq<Entity>, d: Set<Entity>)
    requires
        forall|i: int| 0 <= i < a.len() ==> !d.contains(#[trigger] a[i]),
    ensures
        drop_firsts(a + b, d) == a + drop_firsts(b, d),
    decreases a.len(),
{
    if a.len() == 0 {
        assert(a + b =~= b);
        assert(a + drop_firsts(b, d) =~= drop_firsts(b, d));
    } else {
        let t = a.drop_first();
        assert(forall|i: int| 0 <= i < t.len() ==> #[trigger] t[i] == a[i + 1]);
        assert((a + b).drop_first() =~= t + b);
        assert((a + b)[0] == a[0]);
        lemma_drop_firsts_concat_right(t, b, d);
        assert(seq![a[0]] + (t + drop_firsts(b, d)) =~= a + drop_firsts(b, d));
    }
}

/// A list without duplicates, all of whose entries are in `d`, drops to nothing.
pub proof fn lemma_drop_firsts_all(s: Seq<Entity>, d: Set<Entity>)
    requires
        s.no_duplicates(),
        forall|i: int| 0 <= i < s.len() ==> d.contains(#[trigger] s[i]),
    ensures
        drop_firsts(s, d) == Seq::<Entity>::empty(),
    decreases s.len(),
{
    if s.len() > 0 {
        let t = s.drop_first();
        assert(forall|i: int| 0 <= i < t.len() ==> #[trigger] t[i] == s[i + 1]);
        assert forall|i: int| 0 <= i < t.len() implies #[trigger] d.remove(s[0]).contains(t[i]) by {
            assert(s[i + 1] != s[0]);
        }
        assert(t.no_duplicates());
        lemma_drop_firsts_all(t, d.remove(s[0]));
    }
}

/// `set_parent` to a dead entity changes nothing.
pub proof fn lemma_set_parent_dead(m: WorldModel, e: Entity, p: Entity)
    requires
        !m.alive(p),
    ensures
        m.attach_if_alive(e, p) == m,
{
}

/// Setting the parent of an entity that has none, then removing it again, gives back
/// the world as it was, provided the new parent had no empty `Children` and did not
/// list the entity, or listed it once, last.
pub proof fn lemma_set_then_remove_parent(m: WorldModel, s: Entity, p: Entity)
    requires
        m.alive(s),
        m.alive(p),
        p != s,
        m.parent(s) is None,
        m.has_children(p) == (m.children(p).len() > 0),
        !m.children(p).contains(s)
            || (m.children(p).last() == s && !m.children(p).drop_last().contains(s)),
    ensures
        m.attach_if_alive(s, p).remove_parent(s) == m,
{
    let m1 = m.attach_if_alive(s, p);
    assert(m.detach(s) == m);
    let x = m.children(p);
    assert(m1.children(p) == x.push(s));
    let y = if x.contains(s) { x.drop_last() } else { x };
    let t = if x.contains(s) { seq![s] } else { Seq::<Entity>::empty() };
    assert(x =~= y + t);
    assert(x.push(s) =~= y + t.push(s));
    assert forall|i: int| 0 <= i < y.len() implies !set![s].contains(#[trigger] y[i]) by {
        if y[i] == s {
            assert(y.contains(s));
            if !x.contains(s) {
                assert(x[i] == s);
            }
        }
    }
    lemma_remove_value_is_drop_first(x.push(s), s);
    lemma_drop_firsts_concat_right(y, t.push(s), set![s]);
    assert(set![s].remove(s) =~= Set::<Entity>::empty());
    assert(set![s].contains(s));
    assert(drop_firsts(Seq::<Entity>::empty(), Set::<Entity>::empty()) == Seq::<Entity>::empty());
    if x.contains(s) {
        let u = seq![s, s];
        assert(t.push(s) =~= u);
        assert(u[0] == s);
        assert(u.drop_first() =~= seq![s]);
        lemma_drop_firsts_none(seq![s], Set::<Entity>::empty());
        assert(drop_firsts(u, set![s]) == drop_firsts(seq![s], Set::<Entity>::empty()));
        assert(drop_firsts(t.push(s), set![s]) =~= t);
    } else {
        assert(t.push(s) =~= seq![s]);
        assert(seq![s].drop_first() =~= Seq::<Entity>::empty());
        assert(seq![s][0] == s);
        assert(drop_firsts(seq![s], set![s]) =~= Seq::<Entity>::empty());
        assert(drop_firsts(t.push(s), set![s]) =~= t);
    }
    assert(m1.children(p).remove_value(s) == x);
    let r = m1.remove_parent(s);
    assert(r.records =~= m.records) by {
        assert forall|e: Entity| #[trigger] r.records.dom().contains(e) implies r.records[e] == m.records[e] by {
            if e == s {
                assert(r.records[e].parent == m.records[e].parent);
            }
        }
    }
}

/// Adding distinct children, none of them the parent, in a consistent world: the
/// parent lists its former children, less the added ones, then the added ones in
/// order. If it listed none of them, the added ones simply follow its old list.
pub proof fn lemma_add_children_order(m: WorldModel, p: Entity, cs: Seq<Entity>)
    requires
        m.is_consistent(),
        m.alive(p),
        cs.no_duplicates(),
        forall|i: int| 0 <= i < cs.len() ==> m.alive(#[trigger] cs[i]) && cs[i] != p,
    ensures
        m.add_children(p, cs).children(p) == drop_firsts(m.children(p), cs.to_set()) + cs,
        (forall|i: int| 0 <= i < cs.len() ==> !m.children(p).contains(#[trigger] cs[i]))
            ==> m.add_children(p, cs).children(p) == m.children(p) + cs,
    decreases cs.len(),
{
    let old = m.children(p);
    if cs.len() == 0 {
        assert(cs.to_set() =~= Set::<Entity>::empty());
        lemma_drop_firsts_none(old, Set::<Entity>::empty());
        assert(old + cs =~= old);
    } else {
        let pre = cs.drop_last();
        let x = cs.last();
        assert(forall|i: int| 0 <= i < pre.len() ==> #[trigger] pre[i] == cs[i]);
        assert(pre.no_duplicates());
        lemma_add_children_order(m, p, pre);
        lemma_add_children_consistent(m, p, pre);
        let m1 = m.add_children(p, pre);
        assert(m.alive(cs[cs.len() - 1]));
        lemma_insert_attaches(m1, x, p);
        let a = drop_firsts(old, pre.to_set());
        lemma_remove_value_is_drop_first(m1.children(p), x);
        assert forall|i: int| 0 <= i < pre.len() implies !set![x].contains(#[trigger] pre[i]) by {
            assert(cs[i] != cs[cs.len() - 1]);
        }
        lemma_drop_firsts_concat_left(a, pre, set![x]);
        assert(!pre.to_set().contains(x)) by {
            if pre.contains(x) {
                let k = choose|k: int| 0 <= k < pre.len() && pre[k] == x;
                assert(cs[k] == cs[cs.len() - 1]);
            }
        }
        lemma_drop_firsts_compose(old, pre.to_set(), x);
        assert(cs.to_set() =~= pre.to_set().insert(x)) by {
            assert(cs =~= pre.push(x));
            pre.lemma_push_to_set_commute(x);
        }
        assert((drop_firsts(old, cs.to_set()) + pre).push(x) =~= drop_firsts(old, cs.to_set()) + cs);
        if forall|i: int| 0 <= i < cs.len() ==> !m.children(p).contains(#[trigger] cs[i]) {
            assert forall|i: int| 0 <= i < old.len() implies !cs.to_set().contains(#[trigger] old[i]) by {
                if cs.to_set().contains(old[i]) {
                    let k = choose|k: int| 0 <= k < cs.len() && cs[k] == old[i];
                    assert(old.contains(cs[k]));
                }
            }
            lemma_drop_firsts_none(old, cs.to_set());
        }
    }
}

/// `l` after moving each entity of `cs` other than `p`, in order, to its end: the
/// first occurrence of the entity, if any, is dropped and the entity appended.
pub open spec fn moved_last(l: Seq<Entity>, cs: Seq<Entity>, p: Entity) -> Seq<Entity>
    decreases cs.len(),
{
    if cs.len() == 0 {
        l
    } else {
        let t = moved_last(l, cs.drop_last(), p);
        if cs.last() == p {
            t
        } else {
            t.remove_value(cs.last()).push(cs.last())
        }
    }
}

/// Moving the entities of `cs` (other than `p`) to the end of a list without
/// duplicates: what is left of the list, then the moved entities, each once, in the
/// order of their last occurrence in `cs`.
pub proof fn lemma_moved_last_split(l: Seq<Entity>, cs: Seq<Entity>, p: Entity)
    requires
        l.no_duplicates(),
    ensures
        moved_last(l, cs, p) == drop_firsts(l, cs.to_set().remove(p))
            + moved_last(Seq::<Entity>::empty(), cs, p),
        moved_last(Seq::<Entity>::empty(), cs, p).no_duplicates(),
        forall|y: Entity| #[trigger] moved_last(Seq::<Entity>::empty(), cs, p).contains(y)
            <==> cs.to_set().remove(p).contains(y),
    decreases cs.len(),
{
    let e = Seq::<Entity>::empty();
    if cs.len() == 0 {
        assert(cs.to_set().remove(p) =~= Set::<Entity>::empty());
        lemma_drop_firsts_none(l, Set::<Entity>::empty());
        assert(l + e =~= l);
    } else {
        let pre = cs.drop_last();
        let x = cs.last();
        lemma_moved_last_split(l, pre, p);
        let s0 = pre.to_set().remove(p);
        let d = drop_firsts(l, s0);
        let t = moved_last(e, pre, p);
        assert(cs =~= pre.push(x));
        pre.lemma_push_to_set_commute(x);
        lemma_drop_firsts(l, s0);
        if x == p {
            assert(cs.to_set().remove(p) =~= s0);
        } else {
            let s1 = cs.to_set().remove(p);
            assert(s1 =~= s0.insert(x));
            lemma_remove_value(t, x);
            lemma_push(t.remove_value(x), x);
            lemma_remove_value_is_drop_first(d + t, x);
            lemma_remove_value_is_drop_first(t, x);
            if s0.contains(x) {
                assert(s1 =~= s0);
                assert forall|i: int| 0 <= i < d.len() implies !set![x].contains(#[trigger] d[i]) by {
                    assert(d.contains(d[i]));
                }
                lemma_drop_firsts_concat_right(d, t, set![x]);
                assert((d + t.remove_value(x)).push(x) =~= d + t.remove_value(x).push(x));
            } else {
                assert forall|i: int| 0 <= i < t.len() implies !set![x].contains(#[trigger] t[i]) by {
                    assert(t.contains(t[i]));
                }
                lemma_drop_firsts_concat_left(d, t, set![x]);
                lemma_drop_firsts_compose(l, s0, x);
                lemma_remove_absent(t, x);
                assert((d.remove_value(x) + t).push(x) =~= d.remove_value(x) + t.push(x));
            }
        }
    }
}

/// Inserting `ChildOf { parent: p }` on `e` changes the `ChildOf` of `e` alone, and
/// no component.
pub proof fn lemma_insert_parent_others(m: WorldModel, e: Entity, p: Entity)
    requires
        m.alive(e),
    ensures
        m.insert_parent(e, p, RelationshipHookMode::Run).records.dom() == m.records.dom(),
        forall|y: Entity| #[trigger] m.insert_parent(e, p, RelationshipHookMode::Run).components(y)
            == m.components(y),
        forall|y: Entity| y != e ==> #[trigger] m.insert_parent(e, p, RelationshipHookMode::Run).parent(y)
            == m.parent(y),
{
    let r = m.insert_parent(e, p, RelationshipHookMode::Run);
    let m1 = m.detach(e).set_parent(e, Some(p));
    assert(m.detach(e).records.dom() =~= m.records.dom());
    assert(m1.records.dom() =~= m.records.dom());
    assert(m1.detach(e).records.dom() =~= m.records.dom());
    assert(r.records.dom() =~= m.records.dom());
}

/// Adding children in a consistent world: each added entity other than the parent
/// points to the parent, the parent itself (if added) points nowhere, and the parent
/// has a `Children` component exactly when its list is not empty.
pub proof fn lemma_add_children_links(m: WorldModel, p: Entity, cs: Seq<Entity>)
    requires
        m.is_consistent(),
        m.alive(p),
        forall|i: int| 0 <= i < cs.len() ==> m.alive(#[trigger] cs[i]),
    ensures
        forall|i: int| 0 <= i < cs.len() && cs[i] != p
            ==> m.add_children(p, cs).parent(#[trigger] cs[i]) == Some(p),
        cs.contains(p) ==> m.add_children(p, cs).parent(p) is None,
        cs.len() > 0 ==> m.add_children(p, cs).has_children(p)
            == (m.add_children(p, cs).children(p).len() > 0),
        m.add_children(p, cs).children(p) == moved_last(m.children(p), cs, p),
    decreases cs.len(),
{
    if cs.len() > 0 {
        let pre = cs.drop_last();
        let x = cs.last();
        assert(forall|i: int| 0 <= i < pre.len() ==> #[trigger] pre[i] == cs[i]);
        assert(x == cs[cs.len() - 1]);
        lemma_add_children_links(m, p, pre);
        lemma_add_children_consistent(m, p, pre);
        let m1 = m.add_children(p, pre);
        let r = m.add_children(p, cs);
        assert(m1.alive(x));
        lemma_insert_parent_others(m1, x, p);
        if x != p {
            lemma_insert_attaches(m1, x, p);
            lemma_push(m1.children(p).remove_value(x), x);
            assert(r.children(p).contains(x));
        } else {
            lemma_invalid_child_of_removed(m1, p, p);
        }
        assert forall|i: int| 0 <= i < cs.len() && cs[i] != p implies r.parent(#[trigger] cs[i]) == Some(p) by {
            if cs[i] != x {
                assert(pre[i] == cs[i]);
            }
        }
        if cs.contains(p) && x != p {
            let k = choose|k: int| 0 <= k < cs.len() && cs[k] == p;
            assert(pre[k] == p);
            assert(pre.contains(p));
        }
    }
}

/// Inserting `ChildOf { parent: p }` again on entities that already point to `p` (and
/// on `p` itself, when it points nowhere) changes no parent, component or list other
/// than that of `p`.
pub proof fn lemma_readd_children_frame(m: WorldModel, p: Entity, cs: Seq<Entity>)
    requires
        m.alive(p),
        forall|i: int| 0 <= i < cs.len() ==> {
            &&& m.alive(#[trigger] cs[i])
            &&& cs[i] != p ==> m.parent(cs[i]) == Some(p)
            &&& cs[i] == p ==> m.parent(p) is None
        },
    ensures
        m.add_children(p, cs).records.dom() == m.records.dom(),
        forall|y: Entity| #[trigger] m.add_children(p, cs).parent(y) == m.parent(y),
        forall|y: Entity| #[trigger] m.add_children(p, cs).components(y) == m.components(y),
        forall|y: Entity| y != p ==> #[trigger] m.add_children(p, cs).children(y) == m.children(y),
        forall|y: Entity| y != p ==> #[trigger] m.add_children(p, cs).has_children(y) == m.has_children(y),
    decreases cs.len(),
{
    if cs.len() > 0 {
        let pre = cs.drop_last();
        assert(forall|i: int| 0 <= i < pre.len() ==> #[trigger] pre[i] == cs[i]);
        lemma_readd_children_frame(m, p, pre);
        let m1 = m.add_children(p, pre);
        let x = cs.last();
        assert(m.alive(cs[cs.len() - 1]));
        assert(m1.alive(p));
        let r = m1.insert_parent(x, p, RelationshipHookMode::Run);
        if x != p {
            assert(m1.parent(x) == Some(p));
            let md = m1.detach(x);
            assert(md == m1.set_children(p, m1.children(p).remove_value(x)));
            assert(r == md.set_parent(x, Some(p)).set_children(p, md.children(p).push(x)));
        } else {
            assert(m1.parent(p) is None);
            assert(m1.detach(p) == m1);
            let m2 = m1.set_parent(p, Some(p));
            assert(r == m2.set_children(p, m2.children(p).remove_value(p)).set_parent(p, None));
        }
        assert(r.records.dom() =~= m1.records.dom());
        assert forall|y: Entity| #[trigger] r.parent(y) == m.parent(y) by {
            if y != x {
                assert(r.parent(y) == m1.parent(y));
            }
        }
        assert forall|y: Entity| #[trigger] r.components(y) == m.components(y) by {
            assert(r.components(y) == m1.components(y));
        }
        assert forall|y: Entity| y != p implies #[trigger] r.children(y) == m.children(y) by {
            assert(r.children(y) == m1.children(y));
        }
        assert forall|y: Entity| y != p implies #[trigger] r.has_children(y) == m.has_children(y) by {
            assert(r.has_children(y) == m1.has_children(y));
        }
    }
}

/// Some entity of `cs` pointed to `y` in `m`.
pub open spec fn loses_child(m: WorldModel, cs: Seq<Entity>, y: Entity) -> bool {
    exists|i: int| 0 <= i < cs.len() && #[trigger] m.parent(cs[i]) == Some(y)
}

/// Dropping the first occurrence of one more entity that a list does not hold
/// changes nothing.
pub proof fn lemma_drop_firsts_absent(l: Seq<Entity>, d: Set<Entity>, x: Entity)
    requires
        l.no_duplicates(),
        !l.contains(x),
        !d.contains(x),
    ensures
        drop_firsts(l, d.insert(x)) == drop_firsts(l, d),
{
    lemma_drop_firsts_compose(l, d, x);
    lemma_drop_firsts(l, d);
    let t = drop_firsts(l, d);
    assert forall|i: int| 0 <= i < t.len() implies !set![x].contains(#[trigger] t[i]) by {
        assert(t.contains(t[i]));
    }
    lemma_drop_firsts_none(t, set![x]);
}

/// Adding distinct children, none of them the parent or already its child, in a
/// consistent world: each points to the parent, which lists its former children and
/// then the added ones in order; each former parent of an added entity drops it from
/// its list, and loses its `Children` if that empties it; nothing else changes.
pub proof fn lemma_add_children_effect(m: WorldModel, p: Entity, cs: Seq<Entity>)
    requires
        m.is_consistent(),
        m.alive(p),
        cs.no_duplicates(),
        forall|i: int| 0 <= i < cs.len() ==> {
            &&& m.alive(#[trigger] cs[i])
            &&& cs[i] != p
            &&& m.parent(cs[i]) != Some(p)
        },
    ensures
        ({
            let r = m.add_children(p, cs);
            &&& r.records.dom() == m.records.dom()
            &&& r.next == m.next
            &&& forall|i: int| 0 <= i < cs.len() ==> r.parent(#[trigger] cs[i]) == Some(p)
            &&& forall|y: Entity| !cs.contains(y) ==> #[trigger] r.parent(y) == m.parent(y)
            &&& forall|y: Entity| #[trigger] r.components(y) == m.components(y)
            &&& r.children(p) == m.children(p) + cs
            &&& r.has_children(p) == (cs.len() > 0 || m.has_children(p))
            &&& forall|y: Entity| y != p && #[trigger] m.alive(y) ==> {
                &&& r.children(y) == drop_firsts(m.children(y), cs.to_set())
                &&& r.has_children(y) == if loses_child(m, cs, y) {
                    r.children(y).len() > 0
                } else {
                    m.has_children(y)
                }
            }
        }),
    decreases cs.len(),
{
    let r = m.add_children(p, cs);
    if cs.len() == 0 {
        assert(m.children(p) + cs =~= m.children(p));
        assert(cs.to_set() =~= Set::<Entity>::empty());
        assert forall|y: Entity| y != p && #[trigger] m.alive(y) implies {
            &&& r.children(y) == drop_firsts(m.children(y), cs.to_set())
            &&& r.has_children(y) == if loses_child(m, cs, y) {
                r.children(y).len() > 0
            } else {
                m.has_children(y)
            }
        } by {
            lemma_drop_firsts_none(m.children(y), Set::<Entity>::empty());
        }
    } else {
        let pre = cs.drop_last();
        let x = cs.last();
        assert(forall|i: int| 0 <= i < pre.len() ==> #[trigger] pre[i] == cs[i]);
        assert(x == cs[cs.len() - 1]);
        assert(pre.no_duplicates());
        assert(!pre.contains(x)) by {
            if pre.contains(x) {
                let k = choose|k: int| 0 <= k < pre.len() && pre[k] == x;
                assert(cs[k] == cs[cs.len() - 1]);
            }
        }
        lemma_add_children_effect(m, p, pre);
        lemma_add_children_consistent(m, p, pre);
        let m1 = m.add_children(p, pre);
        assert(m.alive(x) && x != p && m.parent(x) != Some(p));
        assert(m1.parent(x) == m.parent(x));
        assert(m1.alive(x));
        lemma_insert_attaches(m1, x, p);
        lemma_insert_parent_others(m1, x, p);
        assert(!m.children(p).contains(x));
        let a = m.children(p) + pre;
        assert(!a.contains(x)) by {
            if a.contains(x) {
                let k = choose|k: int| 0 <= k < a.len() && a[k] == x;
                if k < m.children(p).len() {
                    assert(m.children(p)[k] == x);
                } else {
                    assert(pre[k - m.children(p).len()] == x);
                }
            }
        }
        lemma_remove_absent(a, x);
        assert(a.push(x) =~= m.children(p) + cs);
        let md = m1.detach(x);
        assert(r == md.set_parent(x, Some(p)).set_children(p, md.children(p).push(x)));
        assert(cs =~= pre.push(x));
        pre.lemma_push_to_set_commute(x);
        assert(cs.to_set() =~= pre.to_set().insert(x));
        assert(!pre.to_set().contains(x));
        assert forall|y: Entity| !cs.contains(y) implies #[trigger] r.parent(y) == m.parent(y) by {
            assert(!pre.contains(y)) by {
                if pre.contains(y) {
                    let k = choose|k: int| 0 <= k < pre.len() && pre[k] == y;
                    assert(cs[k] == y);
                }
            }
            assert(y != x);
            assert(r.parent(y) == m1.parent(y));
        }
        assert forall|i: int| 0 <= i < cs.len() implies r.parent(#[trigger] cs[i]) == Some(p) by {
            if i < cs.len() - 1 {
                assert(pre[i] == cs[i]);
                assert(cs[i] != x);
                assert(r.parent(cs[i]) == m1.parent(cs[i]));
            }
        }
        assert forall|y: Entity| #[trigger] r.components(y) == m.components(y) by {
            assert(r.components(y) == m1.components(y));
        }
        assert forall|y: Entity| y != p && #[trigger] m.alive(y) implies {
            &&& r.children(y) == drop_firsts(m.children(y), cs.to_set())
            &&& r.has_children(y) == if loses_child(m, cs, y) {
                r.children(y).len() > 0
            } else {
                m.has_children(y)
            }
        } by {
            assert(m.children(y).no_duplicates());
            if loses_child(m, pre, y) {
                let k = choose|k: int| 0 <= k < pre.len() && #[trigger] m.parent(pre[k]) == Some(y);
                assert(m.parent(cs[k]) == Some(y));
            }
            if m.parent(x) == Some(y) {
                assert(m.parent(cs[cs.len() - 1]) == Some(y));
                lemma_remove_value_is_drop_first(m1.children(y), x);
                lemma_drop_firsts_compose(m.children(y), pre.to_set(), x);
                assert(r.children(y) == m1.children(y).remove_value(x));
            } else {
                if loses_child(m, cs, y) {
                    let k = choose|k: int| 0 <= k < cs.len() && #[trigger] m.parent(cs[k]) == Some(y);
                    assert(k != cs.len() - 1);
                    assert(m.parent(pre[k]) == Some(y));
                }
                if m.children(y).contains(x) {
                    assert(m.parent(x) == Some(y));
                }
                lemma_drop_firsts_absent(m.children(y), pre.to_set(), x);
                assert(r.children(y) == m1.children(y));
                assert(r.has_children(y) == m1.has_children(y));
            }
        }
    }
}

/// Adding the same children twice, in a consistent world, gives the world that adding
/// them once gives.
pub proof fn lemma_add_children_twice(m: WorldModel, p: Entity, cs: Seq<Entity>)
    requires
        m.is_consistent(),
        m.alive(p),
        forall|i: int| 0 <= i < cs.len() ==> m.alive(#[trigger] cs[i]),
    ensures
        m.add_children(p, cs).add_children(p, cs) == m.add_children(p, cs),
{
    let w1 = m.add_children(p, cs);
    let w2 = w1.add_children(p, cs);
    lemma_add_children_consistent(m, p, cs);
    lemma_add_children_links(m, p, cs);
    assert forall|i: int| 0 <= i < cs.len() implies w1.alive(#[trigger] cs[i]) by {
        assert(m.alive(cs[i]));
    }
    lemma_add_children_links(w1, p, cs);
    assert forall|i: int| 0 <= i < cs.len() implies {
        &&& w1.alive(#[trigger] cs[i])
        &&& cs[i] != p ==> w1.parent(cs[i]) == Some(p)
        &&& cs[i] == p ==> w1.parent(p) is None
    } by {
        if cs[i] == p {
            assert(cs.contains(p));
        }
    }
    lemma_readd_children_frame(w1, p, cs);
    lemma_add_children_consistent(w1, p, cs);
    let st = cs.to_set().remove(p);
    let e = Seq::<Entity>::empty();
    let lst = moved_last(e, cs, p);
    lemma_moved_last_split(m.children(p), cs, p);
    let d = drop_firsts(m.children(p), st);
    lemma_drop_firsts(m.children(p), st);
    assert(w1.children(p) == d + lst);
    lemma_moved_last_split(w1.children(p), cs, p);
    assert forall|i: int| 0 <= i < d.len() implies !st.contains(#[trigger] d[i]) by {
        assert(d.contains(d[i]));
    }
    lemma_drop_firsts_concat_right(d, lst, st);
    assert forall|i: int| 0 <= i < lst.len() implies st.contains(#[trigger] lst[i]) by {
        assert(lst.contains(lst[i]));
    }
    lemma_drop_firsts_all(lst, st);
    assert(d + e =~= d);
    assert(w2.children(p) == w1.children(p));
    assert(w2.next == w1.next);
    assert(w2.records =~= w1.records) by {
        assert forall|y: Entity| #[trigger] w2.records.dom().contains(y) implies w2.records[y] == w1.records[y] by {
            assert(w2.parent(y) == w1.parent(y));
            assert(w2.components(y) == w1.components(y));
            assert(w2.children(y) == w1.children(y));
            if cs.len() > 0 || y != p {
                assert(w2.has_children(y) == w1.has_children(y));
            }
        }
    }
}

/// `x` stands at most once in `l`.
pub open spec fn at_most_once(l: Seq<Entity>, x: Entity) -> bool {
    forall|i: int, j: int| 0 <= i < l.len() && 0 <= j < l.len() && l[i] == x && l[j] == x ==> i == j
}

/// Removing the first occurrence of an entity that stands at most once removes it.
pub proof fn lemma_remove_single(l: Seq<Entity>, x: Entity)
    requires
        at_most_once(l, x),
    ensures
        !l.remove_value(x).contains(x),
{
    l.index_of_first_ensures(x);
    match l.index_of_first(x) {
        Some(k) => {
            let r = l.remove(k);
            if r.contains(x) {
                let i = choose|i: int| 0 <= i < r.len() && r[i] == x;
                let li = if i < k { i } else { i + 1 };
                assert(l[li] == x);
                assert(li != k);
            }
        },
        None => {},
    }
}

/// Adding one child through a queued command: the child points to the entity and is
/// listed last by it, and a former parent that listed it at most once lists it no
/// more; in a consistent world no entity but the new parent lists it.
pub proof fn lemma_add_child_command(m: WorldModel, s: Entity, c: Entity, children: Vec<Entity>)
    requires
        m.alive(s),
        m.alive(c),
        c != s,
        children@ == seq![c],
    ensures
        m.apply(Command::AddChildren { parent: s, children }) == m.insert_parent(c, s, RelationshipHookMode::Run),
        m.apply(Command::AddChildren { parent: s, children }).parent(c) == Some(s),
        m.apply(Command::AddChildren { parent: s, children }).children(s).last() == c,
        ({
            let q = m.parent(c)->0;
            m.parent(c) is Some && q != s && m.alive(q) && at_most_once(m.children(q), c)
                ==> !m.apply(Command::AddChildren { parent: s, children }).children(q).contains(c)
        }),
        m.is_consistent() ==> forall|y: Entity| y != s
            && #[trigger] m.apply(Command::AddChildren { parent: s, children }).alive(y)
            ==> !m.apply(Command::AddChildren { parent: s, children }).children(y).contains(c),
{
    assert(seq![c].drop_last() =~= Seq::<Entity>::empty());
    assert(seq![c].last() == c);
    assert(m.add_children(s, Seq::<Entity>::empty()) == m);
    assert(m.add_children(s, seq![c]) == m.insert_parent(c, s, RelationshipHookMode::Run));
    let md = m.detach(c);
    assert(md.records.dom() =~= m.records.dom());
    let r = m.insert_parent(c, s, RelationshipHookMode::Run);
    assert(r == md.set_parent(c, Some(s)).set_children(s, md.children(s).push(c)));
    if m.parent(c) is Some {
        let q = m.parent(c)->0;
        if q != s && m.alive(q) && at_most_once(m.children(q), c) {
            lemma_remove_single(m.children(q), c);
        }
    }
    if m.is_consistent() {
        lemma_insert_attaches(m, c, s);
    }
}


/// The first entity of each bundle of `bs`, when they are spawned in order and the
/// world has spawned `base` entities before them.
pub open spec fn first_ids(bs: Seq<Bundle>, base: nat) -> Seq<Entity>
    decreases bs.len(),
{
    if bs.len() == 0 {
        Seq::empty()
    } else {
        first_ids(bs.drop_last(), base).push(
            Entity { index: (base + related_count(bs.drop_last())) as u32 },
        )
    }
}

/// Spawning bundles under a live entity appends the first entity of each, in order,
/// to its `Children`; each of them is new and points to it.
pub proof fn lemma_spawn_related_appends(m: WorldModel, bs: Seq<Bundle>, t: Entity)
    requires
        m.wf(),
        m.alive(t),
        m.next + related_count(bs) <= Entity::PLACEHOLDER_INDEX,
    ensures
        first_ids(bs, m.next).len() == bs.len(),
        m.spawn_related(bs, t).children(t) == m.children(t) + first_ids(bs, m.next),
        forall|i: int| 0 <= i < bs.len() ==> {
            &&& !m.alive(#[trigger] first_ids(bs, m.next)[i])
            &&& m.spawn_related(bs, t).alive(first_ids(bs, m.next)[i])
            &&& m.spawn_related(bs, t).parent(first_ids(bs, m.next)[i]) == Some(t)
        },
    decreases bs.len(),
{
    if bs.len() == 0 {
        assert(m.children(t) + Seq::<Entity>::empty() =~= m.children(t));
    } else {
        let pre = bs.drop_last();
        let last = bs.last();
        lemma_spawn_related_appends(m, pre, t);
        lemma_spawn_related_frame(m, pre, t);
        let m1 = m.spawn_related(pre, t);
        let n = m1.next_entity();
        assert(n.index == m.next + related_count(pre));
        lemma_spawn_bundle_frame(m1, last, Some(t));
        let ids = first_ids(bs, m.next);
        let pids = first_ids(pre, m.next);
        assert(ids == pids.push(n));
        assert(m.spawn_related(bs, t) == m1.spawn_bundle(last, Some(t)));
        assert((m.children(t) + pids).push(n) =~= m.children(t) + ids);
        assert forall|i: int| 0 <= i < bs.len() implies {
            &&& !m.alive(#[trigger] first_ids(bs, m.next)[i])
            &&& m.spawn_related(bs, t).alive(first_ids(bs, m.next)[i])
            &&& m.spawn_related(bs, t).parent(first_ids(bs, m.next)[i]) == Some(t)
        } by {
            if i < pre.len() {
                assert(ids[i] == pids[i]);
                assert(m1.alive(pids[i]));
            } else {
                assert(ids[i] == n);
                if m.alive(n) {
                    assert(n.index < m.next);
                }
            }
        }
    }
}

/// `with_children` whose closure spawns the bundles `bs`, in order, through the
/// spawner it gets, and does nothing else, leaves the world that spawning `bs` under
/// the entity gives: their first entities follow the entity's former children, in
/// order, and point to it. Spawning one bundle so is what `with_child` does.
pub proof fn lemma_with_children_spawns<F: FnOnce(&mut ChildSpawner)>(
    func: F,
    e: Entity,
    before: World,
    after: World,
    bs: Seq<Bundle>,
)
    requires
        forall|s: &mut ChildSpawner| #![auto]
            call_ensures(func, (s,), ()) ==> final(s).held_world()@ == s.held_world()@.spawn_related(bs, s.spawn_target()),
        exists|s: &mut ChildSpawner| #![auto]
            call_ensures(func, (s,), ()) && s.spawn_target() == e && s.held_world() == before && after == final(s).held_world(),
    ensures
        after@ == before@.spawn_related(bs, e),
        bs.len() == 1 ==> after@ == before@.spawn_bundle(bs[0], Some(e)),
        before@.alive(e) && before@.next + related_count(bs) <= Entity::PLACEHOLDER_INDEX ==> {
            &&& after@.children(e) == before@.children(e) + first_ids(bs, before@.next)
            &&& forall|i: int| 0 <= i < bs.len() ==>
                after@.parent(#[trigger] first_ids(bs, before@.next)[i]) == Some(e)
        },
{
    let s = choose|s: &mut ChildSpawner| #![auto]
        call_ensures(func, (s,), ()) && s.spawn_target() == e && s.held_world() == before && after == final(s).held_world();
    assert(final(s).held_world()@ == s.held_world()@.spawn_related(bs, s.spawn_target()));
    if bs.len() == 1 {
        assert(bs.drop_last() =~= Seq::<Bundle>::empty());
        assert(bs.last() == bs[0]);
        assert(before@.spawn_related(bs.drop_last(), e) == before@);
        assert(before@.spawn_related(bs, e) == before@.spawn_bundle(bs[0], Some(e)));
    }
    before.lemma_view_wf();
    if before@.alive(e) && before@.next + related_count(bs) <= Entity::PLACEHOLDER_INDEX {
        lemma_spawn_related_appends(before@, bs, e);
    }
}

/// The commands that spawn each bundle of `bs`, in order, under `t`.
pub open spec fn spawn_commands(bs: Seq<Bundle>, t: Entity) -> Seq<Command> {
    Seq::new(bs.len(), |i: int| Command::Spawn { bundle: bs[i], under: Some(t) })
}

/// Applying two queues one after the other is applying them joined.
pub proof fn lemma_apply_all_append(m: WorldModel, cs: Seq<Command>, xs: Seq<Command>)
    ensures
        m.apply_all(cs + xs) == m.apply_all(cs).apply_all(xs),
    decreases xs.len(),
{
    if xs.len() == 0 {
        assert(cs + xs =~= cs);
    } else {
        lemma_apply_all_append(m, cs, xs.drop_last());
        assert((cs + xs).drop_last() =~= cs + xs.drop_last());
        assert((cs + xs).last() == xs.last());
    }
}

/// Applying the commands that spawn `bs` under `t` is spawning `bs` under `t`.
pub proof fn lemma_apply_spawn_commands(m: WorldModel, bs: Seq<Bundle>, t: Entity)
    ensures
        m.apply_all(spawn_commands(bs, t)) == m.spawn_related(bs, t),
    decreases bs.len(),
{
    if bs.len() > 0 {
        lemma_apply_spawn_commands(m, bs.drop_last(), t);
        assert(spawn_commands(bs, t).drop_last() =~= spawn_commands(bs.drop_last(), t));
    }
}

/// `EntityCommands::with_children` whose closure queues, through the spawner it gets,
/// the spawning of `bs` in order and nothing else, queues exactly those spawns; once
/// applied they do what spawning `bs` under the entity does.
pub proof fn lemma_with_children_queued<F: FnOnce(&mut ChildSpawnerCommands)>(
    func: F,
    e: Entity,
    before: Commands,
    after: Commands,
    bs: Seq<Bundle>,
    m: WorldModel,
)
    requires
        forall|s: &mut ChildSpawnerCommands| #![auto]
            call_ensures(func, (s,), ()) ==> final(s).held_commands().queued()
                == s.held_commands().queued() + spawn_commands(bs, s.spawn_target()),
        exists|s: &mut ChildSpawnerCommands| #![auto]
            call_ensures(func, (s,), ()) && s.spawn_target() == e && s.held_commands() == before && after == final(s).held_commands(),
    ensures
        after.queued() == before.queued() + spawn_commands(bs, e),
        m.apply_all(after.queued()) == m.apply_all(before.queued()).spawn_related(bs, e),
{
    let s = choose|s: &mut ChildSpawnerCommands| #![auto]
        call_ensures(func, (s,), ()) && s.spawn_target() == e && s.held_commands() == before && after == final(s).held_commands();
    assert(final(s).held_commands().queued() == s.held_commands().queued() + spawn_commands(bs, s.spawn_target()));
    lemma_apply_all_append(m, before.queued(), spawn_commands(bs, e));
    lemma_apply_spawn_commands(m.apply_all(before.queued()), bs, e);
}

/// `with_child` of a bundle with nothing nested: exactly one entity is new; it holds
/// the bundle's components and no children, points to the entity and is listed last
/// by it; every other entity keeps its parent, components and children.
pub proof fn lemma_with_child(m: WorldModel, s: Entity, b: Bundle)
    requires
        m.wf(),
        m.alive(s),
        b.related@.len() == 0,
        m.next + 1 <= Entity::PLACEHOLDER_INDEX,
    ensures
        ({
            let r = m.spawn_bundle(b, Some(s));
            let n = m.next_entity();
            &&& !m.alive(n)
            &&& r.records.dom() == m.records.dom().insert(n)
            &&& r.parent(n) == Some(s)
            &&& r.components(n) == b.components@.to_set()
            &&& r.children(n) == Seq::<Entity>::empty()
            &&& r.has_children(n) == b.children_component
            &&& r.children(s) == m.children(s).push(n)
            &&& r.has_children(s)
            &&& forall|y: Entity| #[trigger] m.alive(y) ==> {
                &&& r.parent(y) == m.parent(y)
                &&& r.components(y) == m.components(y)
                &&& y != s ==> r.children(y) == m.children(y)
                &&& y != s ==> r.has_children(y) == m.has_children(y)
            }
        }),
{
    let n = m.next_entity();
    assert(n.index == m.next);
    assert(!m.alive(n)) by {
        if m.alive(n) {
            assert(n.index < m.next);
        }
    }
    assert(related_count(b.related@) == 0);
    lemma_spawn_with_parent_frame(m, b.components@.to_set(), Some(s));
    let m1 = m.spawn_with_parent(b.components@.to_set(), Some(s));
    assert(b.related@ =~= Seq::<Bundle>::empty());
    let m0 = m.spawn(b.components@.to_set());
    assert(m0.detach(n) == m0);
    assert(m1.records.dom() =~= m.records.dom().insert(n));
    lemma_mark_children(m1, n);
    let m2 = if b.children_component { m1.mark_children(n) } else { m1 };
    assert(m.spawn_bundle(b, Some(s)) == m2);
}

} // verus!
