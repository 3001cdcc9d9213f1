use vstd::prelude::*;
use crate::entity::{Entity, ComponentId};
use crate::hierarchy::ChildOf;

verus! {

/// What to spawn: an entity with the given components and, where given, a `ChildOf`,
/// followed by the related bundles, each spawned as a child of that entity.
pub struct Bundle {
    pub components: Vec<ComponentId>,
    pub child_of: Option<ChildOf>,
    pub related: Vec<Bundle>,
    /// Whether the spawned entity gets a `Children` component even before any related
    /// bundle is spawned under it.
    pub children_component: bool,
}

/// The parent that a bundle spawned under `nested` (or at the top, with `None`) gets.
pub open spec fn bundle_parent(b: Bundle, nested: Option<Entity>) -> Option<Entity> {
    match nested {
        Some(p) => Some(p),
        None => match b.child_of {
            Some(c) => Some(c.parent),
            None => None,
        },
    }
}

/// How many entities spawning `b` creates.
pub open spec fn bundle_count(b: Bundle) -> nat
    decreases b,
{
    1 + related_count(b.related@)
}

/// How many entities spawning the bundles of `bs` creates.
pub open spec fn related_count(bs: Seq<Bundle>) -> nat
    decreases bs,
{
    if bs.len() == 0 {
        0
    } else {
        related_count(bs.drop_last()) + bundle_count(bs.last())
    }
}

/// No bundle nested in `bs`, at any depth, carries its own `ChildOf` (the relation to
/// the enclosing bundle gives it one).
pub open spec fn nested_ok(bs: Seq<Bundle>) -> bool
    decreases bs,
{
    if bs.len() == 0 {
        true
    } else {
        &&& nested_ok(bs.drop_last())
        &&& bs.last().child_of is None
        &&& nested_ok(bs.last().related@)
    }
}

/// The bundles of a prefix spawn no more entities than all of them.
pub proof fn lemma_related_count_prefix(bs: Seq<Bundle>, k: int)
    requires
        0 <= k <= bs.len(),
    ensures
        related_count(bs.take(k)) <= related_count(bs),
    decreases bs.len() - k,
{
    if k < bs.len() {
        lemma_related_count_prefix(bs, k + 1);
        assert(bs.take(k + 1).drop_last() =~= bs.take(k));
    } else {
        assert(bs.take(k) =~= bs);
    }
}

/// Each bundle of a list without nested `ChildOf` has none itself, nor nested in it.
pub proof fn lemma_nested_ok_at(bs: Seq<Bundle>, i: int)
    requires
        nested_ok(bs),
        0 <= i < bs.len(),
    ensures
        bs[i].child_of is None,
        nested_ok(bs[i].related@),
    decreases bs.len(),
{
    if i < bs.len() - 1 {
        lemma_nested_ok_at(bs.drop_last(), i);
    }
}

impl Bundle {
    /// How many entities spawning this bundle creates.
    pub fn count(&self) -> (r: usize)
        requires
            bundle_count(*self) <= Entity::PLACEHOLDER_INDEX,
        ensures
            r == bundle_count(*self),
        decreases self,
    {
        let ghost rel = self.related@;
        let mut n: usize = 1;
        let mut i: usize = 0;
        while i < self.related.len()
            invariant
                rel == self.related@,
                i <= rel.len(),
                1 + related_count(rel) <= Entity::PLACEHOLDER_INDEX,
                n == 1 + related_count(rel.take(i as int)),
            decreases rel.len() - i,
        {
            proof {
                assert(rel.take(i as int + 1).drop_last() =~= rel.take(i as int));
                assert(rel.take(i as int + 1).last() == rel[i as int]);
                lemma_related_count_prefix(rel, i as int + 1);
            }
            let k = self.related[i].count();
            n = n + k;
            i = i + 1;
        }
        proof {
            assert(rel.take(rel.len() as int) =~= rel);
        }
        n
    }

    /// A bundle with no component and nothing related.
    pub fn new() -> (b: Bundle)
        ensures
            b.components@ == Seq::<ComponentId>::empty(),
            b.child_of is None,
            b.related@ == Seq::<Bundle>::empty(),
            !b.children_component,
    {
        Bundle { components: Vec::new(), child_of: None, related: Vec::new(), children_component: false }
    }

    /// The bundle with the component `c` added.
    pub fn with_component(self, c: ComponentId) -> (b: Bundle)
        ensures
            b.components@ == self.components@.push(c),
            b.child_of == self.child_of,
            b.related@ == self.related@,
            b.children_component == self.children_component,
    {
        let mut b = self;
        b.components.push(c);
        b
    }
}

impl ChildOf {
    /// A bundle holding just this `ChildOf`.
    pub fn into_bundle(self) -> (b: Bundle)
        ensures
            b.components@ == Seq::<ComponentId>::empty(),
            b.child_of == Some(self),
            b.related@ == Seq::<Bundle>::empty(),
            !b.children_component,
    {
        Bundle { components: Vec::new(), child_of: Some(self), related: Vec::new(), children_component: false }
    }
}

} // verus!
