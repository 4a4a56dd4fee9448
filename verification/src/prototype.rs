//! Prototypes: the components of one entity before it exists in a world.

use vstd::prelude::*;
use crate::component::Component;
use crate::layout::{Layout, TypeKey};

verus! {

/// Whether some component of `parts` has the type `key`.
pub open spec fn has_key<C: Component>(parts: Seq<C>, key: TypeKey) -> bool {
    exists|i: int| 0 <= i < parts.len() && (#[trigger] parts[i]).type_key() == key
}

/// A position in `parts` at which a component of type `key` stands.
pub open spec fn position<C: Component>(parts: Seq<C>, key: TypeKey) -> int {
    choose|i: int| 0 <= i < parts.len() && (#[trigger] parts[i]).type_key() == key
}

/// No two components of `parts` have the same type.
pub open spec fn distinct_keys<C: Component>(parts: Seq<C>) -> bool {
    forall|i: int, j: int|
        0 <= i < parts.len() && 0 <= j < parts.len() && i != j ==> (#[trigger] parts[i]).type_key() != (
        #[trigger] parts[j]).type_key()
}

/// The components of `parts`, each under the key of its type.
pub open spec fn as_map<C: Component>(parts: Seq<C>) -> Map<TypeKey, C> {
    Map::new(|key: TypeKey| has_key(parts, key), |key: TypeKey| parts[position(parts, key)])
}

/// With distinct keys, the component found under a key is the one that
/// stands at the position where that key occurs.
pub proof fn lemma_position<C: Component>(parts: Seq<C>, i: int)
    requires
        distinct_keys(parts),
        0 <= i < parts.len(),
    ensures
        has_key(parts, parts[i].type_key()),
        position(parts, parts[i].type_key()) == i,
        as_map(parts).dom().contains(parts[i].type_key()),
        as_map(parts)[parts[i].type_key()] == parts[i],
{
    let key = parts[i].type_key();
    assert(has_key(parts, key));
    let j = position(parts, key);
    assert(0 <= j < parts.len() && parts[j].type_key() == key);
}

/// The components of one entity that is yet to be created: at most one per
/// component type.
pub struct Prototype<C: Component> {
    pub(crate) components: Vec<C>,
}

impl<C: Component> Prototype<C> {
    /// The components held, in the order in which their types first came.
    pub open(crate) spec fn parts(&self) -> Seq<C> {
        self.components@
    }

    /// The components held, each under the key of its type.
    pub open(crate) spec fn view(&self) -> Map<TypeKey, C> {
        as_map(self.components@)
    }

    /// At most one component per type.
    pub open(crate) spec fn wf(&self) -> bool {
        distinct_keys(self.components@)
    }

    /// A prototype without components.
    pub fn new() -> (prototype: Prototype<C>)
        ensures
            prototype.wf(),
            prototype@ == Map::<TypeKey, C>::empty(),
            prototype.parts() == Seq::<C>::empty(),
    {
        let prototype = Prototype { components: Vec::new() };
        assert(prototype@ =~= Map::<TypeKey, C>::empty());
        prototype
    }

    /// Adds a component. One of the same type that is already held is
    /// replaced: the last write wins.
    pub fn with(self, component: C) -> (prototype: Prototype<C>)
        requires
            self.wf(),
        ensures
            prototype.wf(),
            prototype@ == self@.insert(component.type_key(), component),
    {
        let ghost before = self.components@;
        let mut components = self.components;
        let key = component.type_id();
        let mut i: usize = 0;
        while i < components.len() && components[i].type_id() != key
            invariant
                components@ == before,
                i <= components.len(),
                forall|j: int| 0 <= j < i ==> (#[trigger] before[j]).type_key() != key,
            decreases components.len() - i,
        {
            i += 1;
        }
        let found = i < components.len();
        if found {
            components[i] = component;
        } else {
            components.push(component);
        }
        let prototype = Prototype { components };
        proof {
            let after = prototype.components@;
            let target = as_map(before).insert(key, component);
            if found {
                assert(after == before.update(i as int, component));
                assert forall|j: int| 0 <= j < after.len() implies (#[trigger] after[j]).type_key()
                    == before[j].type_key() by {}
            } else {
                assert(after == before.push(component));
                assert forall|j: int| 0 <= j < before.len() implies (#[trigger] after[j]).type_key()
                    == before[j].type_key() by {}
            }
            assert(distinct_keys(after)) by {
                assert forall|a: int, b: int|
                    0 <= a < after.len() && 0 <= b < after.len() && a != b implies (
                #[trigger] after[a]).type_key() != (#[trigger] after[b]).type_key() by {
                    if a < before.len() && b < before.len() {
                        assert(before[a].type_key() != before[b].type_key());
                    }
                }
            }
            assert forall|k: TypeKey| #[trigger]
                as_map(after).dom().contains(k) implies target.dom().contains(k) by {
                let j = position(after, k);
                if k != key {
                    assert(before[j].type_key() == k);
                }
            }
            assert forall|k: TypeKey| #[trigger]
                target.dom().contains(k) implies as_map(after).dom().contains(k) && as_map(
                after,
            )[k] == target[k] by {
                if k == key {
                    let j = if found {
                        i as int
                    } else {
                        before.len() as int
                    };
                    assert(after[j] == component);
                    lemma_position(after, j);
                } else {
                    let j = position(before, k);
                    assert(before[j].type_key() == k);
                    lemma_position(before, j);
                    assert(after[j] == before[j]);
                    lemma_position(after, j);
                }
            }
            assert(as_map(after).dom() =~= target.dom());
            assert forall|k: TypeKey| #[trigger] as_map(after).contains_key(k) implies as_map(after)[k] == target[k] by {
                assert(target.dom().contains(k));
            }
            assert(as_map(after) =~= target);
        }
        prototype
    }

    /// The set of component types currently held.
    pub fn layout(&self) -> (layout: Layout)
        ensures
            layout.wf(),
            layout@ == self@.dom(),
    {
        let mut layout = Layout::new();
        let mut i: usize = 0;
        while i < self.components.len()
            invariant
                i <= self.components.len(),
                layout.wf(),
                forall|k: TypeKey| layout@.contains(k) <==> has_key(self.components@.take(i as int), k),
            decreases self.components.len() - i,
        {
            let key = self.components[i].type_id();
            let ghost before = layout@;
            layout.insert(key);
            proof {
                let shorter = self.components@.take(i as int);
                let longer = self.components@.take(i as int + 1);
                assert forall|k: TypeKey| layout@.contains(k) <==> has_key(longer, k) by {
                    if has_key(longer, k) {
                        let j = position(longer, k);
                        if j < i {
                            assert(shorter[j].type_key() == k);
                        }
                    }
                    if before.contains(k) {
                        let j = position(shorter, k);
                        assert(longer[j].type_key() == k);
                    }
                    if k == key {
                        assert(longer[i as int].type_key() == k);
                    }
                }
            }
            i += 1;
        }
        assert(self.components@.take(i as int) =~= self.components@);
        assert(layout@ =~= self@.dom());
        layout
    }

    /// Gives up the components, one per type held.
    pub fn components(self) -> (components: Vec<C>)
        ensures
            components@ == self.parts(),
            self.wf() ==> distinct_keys(components@),
            as_map(components@) == self@,
    {
        self.components
    }
}

} // verus!
