//! The world: every archetype, and the routing of new entities to them.

use vstd::prelude::*;
use crate::archetypes::{Archetype, ArchetypeEntity};
use crate::component::Component;
use crate::layout::{Layout, TypeKey};
use crate::prototype::Prototype;

verus! {

/// The greatest number of archetypes that a world can hold.
pub const MAX_ARCHETYPES: usize = 65535;

/// Identifies an entity in a world: its archetype and its row there.
#[derive(Clone, Copy, Debug, PartialEq, Eq, Hash, Structural)]
pub struct Entity {
    pub archetype: u16,
    pub entry: ArchetypeEntity,
}

/// The rows `rows` of the archetype number `archetype`, as entities of the
/// world.
pub open spec fn tagged(archetype: int, rows: Seq<ArchetypeEntity>) -> Seq<Entity> {
    Seq::new(rows.len(), |i: int| Entity { archetype: archetype as u16, entry: rows[i] })
}

/// A collection of entities, grouped into archetypes by the set of
/// component types that they hold.
pub struct World<C: Component> {
    pub(crate) archetypes: Vec<Archetype<C>>,
}

impl<C: Component> Default for World<C> {
    /// A world without archetypes.
    fn default() -> (world: World<C>)
        ensures
            world.wf(),
            world@ == Seq::<Archetype<C>>::empty(),
    {
        World::new()
    }
}

impl<C: Component> World<C> {
    /// The archetypes, in the order in which they were created.
    pub open(crate) spec fn view(&self) -> Seq<Archetype<C>> {
        self.archetypes@
    }

    /// The invariant of a world: at most `MAX_ARCHETYPES` archetypes, each
    /// well formed and with all its columns.
    pub open spec fn wf(&self) -> bool {
        &&& self@.len() <= MAX_ARCHETYPES
        &&& forall|i: int| 0 <= i < self@.len() ==> (#[trigger] self@[i]).wf() && self@[i].populated()
    }

    /// The first archetype at `from` or later whose layout is `layout`, or
    /// the number of archetypes where there is none.
    pub open spec fn find_from(&self, layout: Set<TypeKey>, from: int) -> int
        decreases self@.len() - from,
    {
        if from < 0 || from >= self@.len() {
            self@.len() as int
        } else if self@[from].layout_set() == layout {
            from
        } else {
            self.find_from(layout, from + 1)
        }
    }

    /// The archetype that takes the entities of `layout`: the first one with
    /// that layout, or else the place of the next new archetype.
    pub open spec fn target(&self, layout: Set<TypeKey>) -> int {
        self.find_from(layout, 0)
    }

    /// Whether an entity of `prototype` can be created: its archetype has
    /// no accessor out and room for one more row, or is yet to be created
    /// and the world has room for one more archetype.
    pub open spec fn insertable(&self, prototype: &Prototype<C>) -> bool {
        let t = self.target(prototype@.dom());
        if t < self@.len() {
            self@[t].is_free() && self@[t].table().len() < usize::MAX
        } else {
            self@.len() < MAX_ARCHETYPES
        }
    }

    /// What one insertion of `prototype` makes of the world `pre`: every
    /// archetype but the target is as it was, and the target has grown by
    /// the entity, starting empty if it is new.
    pub open spec fn inserted(&self, pre: World<C>, prototype: Prototype<C>) -> bool {
        let t = pre.target(prototype@.dom());
        &&& forall|i: int| 0 <= i < pre@.len() && i != t ==> #[trigger] self@[i] == pre@[i]
        &&& if t < pre@.len() {
            &&& self@.len() == pre@.len()
            &&& self@[t].grown_from(pre@[t], prototype)
        } else {
            &&& self@.len() == pre@.len() + 1
            &&& self@[t].layout_set() == prototype@.dom()
            &&& self@[t].table() == seq![ArchetypeEntity { index: 0, generation: 0 }]
            &&& self@[t].dead() == Seq::<usize>::empty()
            &&& self@[t].is_free()
            &&& forall|key: TypeKey|
                prototype@.dom().contains(key) ==> #[trigger] self@[t].values(key) == seq![
                    prototype@[key],
                ]
        }
    }

    /// The live entities of the first `n` archetypes: archetype by
    /// archetype, and by ascending row within each.
    pub open spec fn entities_prefix(&self, n: nat) -> Seq<Entity>
        decreases n,
    {
        if n == 0 {
            Seq::empty()
        } else {
            self.entities_prefix((n - 1) as nat) + tagged(n - 1, self@[n - 1].live())
        }
    }

    /// The live entities of the world.
    pub open spec fn all_entities(&self) -> Seq<Entity> {
        self.entities_prefix(self@.len())
    }

    /// The target of a layout is an archetype of that layout which no
    /// earlier archetype shares it with, or the number of archetypes if none
    /// has the layout.
    pub proof fn lemma_find_from(&self, layout: Set<TypeKey>, from: int)
        requires
            0 <= from <= self@.len(),
        ensures
            from <= self.find_from(layout, from) <= self@.len(),
            self.find_from(layout, from) < self@.len() ==> self@[self.find_from(
                layout,
                from,
            )].layout_set() == layout,
            forall|i: int|
                from <= i < self.find_from(layout, from) ==> (#[trigger] self@[i]).layout_set()
                    != layout,
        decreases self@.len() - from,
    {
        if from < self@.len() && self@[from].layout_set() != layout {
            self.lemma_find_from(layout, from + 1);
        }
    }

    /// A world without archetypes.
    pub fn new() -> (world: World<C>)
        ensures
            world.wf(),
            world@ == Seq::<Archetype<C>>::empty(),
    {
        World { archetypes: Vec::new() }
    }

    /// The archetypes, in the order in which they were created.
    pub fn archetypes(&self) -> (archetypes: &[Archetype<C>])
        ensures
            archetypes@ == self@,
    {
        self.archetypes.as_slice()
    }

    /// The archetypes, open to change. The caller answers for the world's
    /// invariant afterwards.
    pub fn archetypes_mut(&mut self) -> (archetypes: &mut [Archetype<C>])
        ensures
            archetypes@ == old(self)@,
            final(self)@ == final(archetypes)@,
    {
        self.archetypes.as_mut_slice()
    }

    /// The place of the first archetype whose layout is that of `layout`, or
    /// the number of archetypes where there is none.
    pub fn find_layout(&self, layout: &Layout) -> (t: usize)
        requires
            self.wf(),
            layout.wf(),
        ensures
            t == self.target(layout@),
            t <= self@.len(),
    {
        let mut i: usize = 0;
        proof {
            self.lemma_find_from(layout@, 0);
        }
        while i < self.archetypes.len()
            invariant
                self.wf(),
                layout.wf(),
                i <= self.archetypes.len(),
                self.find_from(layout@, i as int) == self.target(layout@),
            decreases self.archetypes.len() - i,
        {
            if self.archetypes[i].layout().equals(layout) {
                return i;
            }
            i += 1;
        }
        i
    }

    /// Whether `insert` may be called with `prototype`.
    pub fn can_insert(&self, prototype: &Prototype<C>) -> (possible: bool)
        requires
            self.wf(),
            prototype.wf(),
        ensures
            possible == self.insertable(prototype),
    {
        let layout = prototype.layout();
        let t = self.find_layout(&layout);
        if t < self.archetypes.len() {
            self.archetypes[t].is_unborrowed() && self.archetypes[t].slots() < usize::MAX
        } else {
            self.archetypes.len() < MAX_ARCHETYPES
        }
    }

    /// Creates one entity from `prototype`, in the first archetype whose
    /// layout equals that of the prototype. Where there is none, a new
    /// archetype of that layout is added after the others and takes the
    /// entity.
    pub fn insert(&mut self, prototype: Prototype<C>)
        requires
            old(self).wf(),
            prototype.wf(),
            old(self).insertable(&prototype),
        ensures
            final(self).wf(),
            final(self).inserted(*old(self), prototype),
    {
        let layout = prototype.layout();
        let t = self.find_layout(&layout);
        proof {
            self.lemma_find_from(layout@, 0);
        }
        if t < self.archetypes.len() {
            self.archetypes[t].insert(prototype);
        } else {
            let mut archetype = Archetype::new(layout);
            let ghost fresh = archetype;
            archetype.insert(prototype);
            proof {
                assert(fresh.next_table() =~= seq![ArchetypeEntity { index: 0, generation: 0 }]);
                assert forall|key: TypeKey| prototype@.dom().contains(key) implies #[trigger] archetype.values(key)
                    == seq![prototype@[key]] by {
                    assert(!fresh.has_column(key));
                    assert(fresh.values(key).push(prototype@[key]) =~= seq![prototype@[key]]);
                }
            }
            self.archetypes.push(archetype);
        }
    }

    /// The first archetype that `predicate` accepts, if any.
    pub fn find_archetype(&self, predicate: impl Fn(&Archetype<C>) -> bool) -> (found: Option<
        &Archetype<C>,
    >)
        requires
            forall|i: int| 0 <= i < self@.len() ==> call_requires(predicate, (&#[trigger] self@[i],)),
        ensures
            match found {
                Some(archetype) => exists|i: int|
                    {
                        &&& 0 <= i < self@.len()
                        &&& *archetype == #[trigger] self@[i]
                        &&& call_ensures(predicate, (&self@[i],), true)
                        &&& forall|j: int|
                            0 <= j < i ==> call_ensures(predicate, (&#[trigger] self@[j],), false)
                    },
                None => forall|j: int|
                    0 <= j < self@.len() ==> call_ensures(predicate, (&#[trigger] self@[j],), false),
            },
    {
        let mut i: usize = 0;
        while i < self.archetypes.len()
            invariant
                i <= self.archetypes.len(),
                forall|i: int|
                    0 <= i < self@.len() ==> call_requires(predicate, (&#[trigger] self@[i],)),
                forall|j: int| 0 <= j < i ==> call_ensures(predicate, (&#[trigger] self@[j],), false),
            decreases self.archetypes.len() - i,
        {
            assert(call_requires(predicate, (&self@[i as int],)));
            if predicate(&self.archetypes[i]) {
                assert(call_ensures(predicate, (&self@[i as int],), true));
                return Some(&self.archetypes[i]);
            }
            assert(call_ensures(predicate, (&self@[i as int],), false));
            i += 1;
        }
        None
    }

    /// The first archetype that `predicate` accepts, if any, open to
    /// change. The caller answers for the world's invariant afterwards.
    pub fn find_archetype_mut(&mut self, predicate: impl Fn(&Archetype<C>) -> bool) -> (found:
        Option<&mut Archetype<C>>)
        requires
            forall|i: int|
                0 <= i < old(self)@.len() ==> call_requires(predicate, (&#[trigger] old(self)@[i],)),
        ensures
            match found {
                Some(archetype) => exists|i: int|
                    {
                        &&& 0 <= i < old(self)@.len()
                        &&& *archetype == #[trigger] old(self)@[i]
                        &&& final(self)@ == old(self)@.update(i, *final(archetype))
                        &&& call_ensures(predicate, (&old(self)@[i],), true)
                        &&& forall|j: int|
                            0 <= j < i ==> call_ensures(predicate, (&#[trigger] old(self)@[j],), false)
                    },
                None => {
                    &&& final(self)@ == old(self)@
                    &&& forall|j: int|
                        0 <= j < old(self)@.len() ==> call_ensures(
                            predicate,
                            (&#[trigger] old(self)@[j],),
                            false,
                        )
                },
            },
    {
        let mut i: usize = 0;
        let mut hit = false;
        while i < self.archetypes.len() && !hit
            invariant
                *self == *old(self),
                i <= self.archetypes.len(),
                hit ==> i < self.archetypes.len() && call_ensures(predicate, (&self@[i as int],), true),
                forall|i: int|
                    0 <= i < self@.len() ==> call_requires(predicate, (&#[trigger] self@[i],)),
                forall|j: int| 0 <= j < i ==> call_ensures(predicate, (&#[trigger] self@[j],), false),
            decreases self.archetypes.len() - i + (if hit { 0int } else { 1int }),
        {
            assert(call_requires(predicate, (&self@[i as int],)));
            if predicate(&self.archetypes[i]) {
                assert(call_ensures(predicate, (&self@[i as int],), true));
                hit = true;
            } else {
                assert(call_ensures(predicate, (&self@[i as int],), false));
                i += 1;
            }
        }
        if hit {
            Some(&mut self.archetypes[i])
        } else {
            None
        }
    }

    /// The live entities of the world: archetype by archetype in the order
    /// of creation, by ascending row within each, every one tagged with the
    /// number of its archetype.
    pub fn entities(&self) -> (entities: Vec<Entity>)
        requires
            self.wf(),
        ensures
            entities@ == self.all_entities(),
    {
        let mut entities: Vec<Entity> = Vec::new();
        let mut a: usize = 0;
        while a < self.archetypes.len()
            invariant
                self.wf(),
                a <= self.archetypes.len(),
                entities@ == self.entities_prefix(a as nat),
            decreases self.archetypes.len() - a,
        {
            let rows = self.archetypes[a].entities();
            let ghost done = entities@;
            let mut i: usize = 0;
            while i < rows.len()
                invariant
                    a < self.archetypes.len(),
                    self@.len() <= MAX_ARCHETYPES,
                    i <= rows.len(),
                    entities@ == done + tagged(a as int, rows@.take(i as int)),
                decreases rows.len() - i,
            {
                entities.push(Entity { archetype: a as u16, entry: rows[i] });
                assert(tagged(a as int, rows@.take(i as int + 1)) =~= tagged(
                    a as int,
                    rows@.take(i as int),
                ).push(Entity { archetype: a as u16, entry: rows@[i as int] }));
                i += 1;
            }
            assert(rows@.take(i as int) =~= rows@);
            a += 1;
        }
        entities
    }
}

} // verus!
