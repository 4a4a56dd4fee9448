//! Archetypes: the storage of all entities that share one layout.

use vstd::prelude::*;
use crate::column::{
    give_back, holds, lemma_give_back_same_values, lemma_lend_same_values, lemma_same_values_holds,
    lend, lendable, place, returnable, same_values, Column, ColumnGuard,
};
use crate::component::Component;
use crate::layout::{Layout, TypeKey};
use crate::prototype::{as_map, distinct_keys, lemma_position, position, Prototype};

verus! {

/// Identifies an entity inside its archetype: a row of the entity table and
/// the generation of that row at the time the handle was made.
#[derive(Clone, Copy, Debug, PartialEq, Eq, Hash, Structural)]
pub struct ArchetypeEntity {
    pub index: usize,
    pub generation: u32,
}

/// A row of the entity table as a caller names it when asking whether the
/// entity that it once held is still there.
#[derive(Clone, Copy, Debug, PartialEq, Eq, Hash, Structural)]
pub struct ArchetypeEntry {
    pub index: usize,
    pub generation: u32,
}

/// Whether a component of type `key` stands in `parts` at `from` or later.
pub open spec fn placed<C: Component>(parts: Seq<C>, from: int, key: TypeKey) -> bool {
    exists|p: int| from <= p < parts.len() && (#[trigger] parts[p]).type_key() == key
}

/// The storage of one layout: one column per component type, and the table
/// of entity rows with the list of rows that are free for reuse.
pub struct Archetype<C: Component> {
    pub(crate) columns: Vec<Column<C>>,
    pub(crate) entities: Vec<ArchetypeEntity>,
    pub(crate) dead_entities: Vec<usize>,
    pub(crate) layout: Layout,
}

impl<C: Component> Default for Archetype<C> {
    /// An empty archetype for the empty layout.
    fn default() -> (archetype: Archetype<C>)
        ensures
            archetype.wf(),
            archetype.is_free(),
            archetype.layout_set() == Set::<TypeKey>::empty(),
            archetype.table() == Seq::<ArchetypeEntity>::empty(),
            archetype.dead() == Seq::<usize>::empty(),
            archetype.columns() == Seq::<Column<C>>::empty(),
    {
        Archetype::new(Layout::new())
    }
}

impl<C: Component> Archetype<C> {
    /// The entity table, one row per slot ever allocated.
    pub open(crate) spec fn table(&self) -> Seq<ArchetypeEntity> {
        self.entities@
    }

    /// The rows that are free for reuse, lowest first.
    pub open(crate) spec fn dead(&self) -> Seq<usize> {
        self.dead_entities@
    }

    /// The layout as it is stored.
    pub open(crate) spec fn stored_layout(&self) -> Layout {
        self.layout
    }

    /// The component types of the archetype.
    pub open spec fn layout_set(&self) -> Set<TypeKey> {
        self.stored_layout()@
    }

    /// The columns, in the order in which they were created.
    pub open(crate) spec fn columns(&self) -> Seq<Column<C>> {
        self.columns@
    }

    /// Whether a column for the type `key` exists.
    pub open spec fn has_column(&self, key: TypeKey) -> bool {
        holds(self.columns(), key)
    }

    /// The place of the column for the type `key` among the columns.
    pub open spec fn column_index(&self, key: TypeKey) -> int {
        place(self.columns(), key)
    }

    /// The values stored for the type `key`; none where no column exists.
    pub open spec fn values(&self, key: TypeKey) -> Seq<C> {
        if self.has_column(key) {
            self.columns()[self.column_index(key)]@
        } else {
            Seq::empty()
        }
    }

    /// Whether the row `index` is free for reuse.
    pub open spec fn is_dead(&self, index: int) -> bool {
        exists|k: int| 0 <= k < self.dead().len() && #[trigger] self.dead()[k] == index
    }

    /// Number of live entities: the rows of the table that are not free.
    pub open spec fn live_count(&self) -> int {
        self.table().len() - self.dead().len()
    }

    /// The live rows among the first `n` rows of the table, in table order.
    pub open spec fn live_prefix(&self, n: nat) -> Seq<ArchetypeEntity>
        decreases n,
    {
        if n == 0 {
            Seq::empty()
        } else if self.is_dead(n - 1) {
            self.live_prefix((n - 1) as nat)
        } else {
            self.live_prefix((n - 1) as nat).push(self.table()[n - 1])
        }
    }

    /// The live rows of the table, in table order.
    pub open spec fn live(&self) -> Seq<ArchetypeEntity> {
        self.live_prefix(self.table().len())
    }

    /// Every component type of the layout has its column.
    pub open spec fn populated(&self) -> bool {
        forall|key: TypeKey| self.layout_set().contains(key) ==> self.has_column(key)
    }

    /// No accessor is out on any column.
    pub open spec fn is_free(&self) -> bool {
        forall|j: int| 0 <= j < self.columns().len() ==> (#[trigger] self.columns()[j]).is_free()
    }

    /// The invariant of an archetype: the layout is a set; the columns have
    /// distinct types of the layout and each holds one value per live
    /// entity; row `i` of the table carries the index `i`; the free rows are
    /// rows of the table, strictly ascending, and can still be reused; and
    /// an archetype with live entities has all its columns.
    pub open spec fn wf(&self) -> bool {
        &&& self.stored_layout().wf()
        &&& forall|i: int, j: int|
            0 <= i < self.columns().len() && 0 <= j < self.columns().len() && i != j ==> (
            #[trigger] self.columns()[i]).key() != (#[trigger] self.columns()[j]).key()
        &&& forall|j: int|
            0 <= j < self.columns().len() ==> {
                &&& (#[trigger] self.columns()[j]).wf()
                &&& self.layout_set().contains(self.columns()[j].key())
                &&& self.columns()[j]@.len() == self.live_count()
            }
        &&& forall|i: int| 0 <= i < self.table().len() ==> (#[trigger] self.table()[i]).index == i
        &&& self.dead().len() <= self.table().len()
        &&& forall|a: int, b: int|
            0 <= a < b < self.dead().len() ==> (#[trigger] self.dead()[a]) < (#[trigger] self.dead()[b])
        &&& forall|k: int|
            0 <= k < self.dead().len() ==> {
                &&& (#[trigger] self.dead()[k]) < self.table().len()
                &&& self.table()[self.dead()[k] as int].generation < u32::MAX
            }
        &&& self.live_count() > 0 ==> self.populated()
    }

    /// The entity table once the next entity has its slot: the lowest free
    /// row with its generation raised by one, or else a new last row of
    /// generation 0.
    pub open spec fn next_table(&self) -> Seq<ArchetypeEntity> {
        if self.dead().len() > 0 {
            let index = self.dead()[0];
            self.table().update(
                index as int,
                ArchetypeEntity {
                    index,
                    generation: (self.table()[index as int].generation + 1) as u32,
                },
            )
        } else {
            self.table().push(ArchetypeEntity { index: self.table().len() as usize, generation: 0 })
        }
    }

    /// The free rows once the next entity has its slot.
    pub open spec fn next_dead(&self) -> Seq<usize> {
        if self.dead().len() > 0 {
            self.dead().remove(0)
        } else {
            self.dead()
        }
    }

    /// What one insertion of `prototype` makes of the archetype `pre`: the
    /// entity has its slot, and every column has the component of its type
    /// as its new last value.
    pub open spec fn grown_from(&self, pre: Archetype<C>, prototype: Prototype<C>) -> bool {
        &&& self.layout_set() == pre.layout_set()
        &&& self.table() == pre.next_table()
        &&& self.dead() == pre.next_dead()
        &&& self.live_count() == pre.live_count() + 1
        &&& self.is_free()
        &&& forall|key: TypeKey|
            pre.layout_set().contains(key) ==> #[trigger] self.values(key) == pre.values(key).push(
                prototype@[key],
            )
    }

    /// The entity table, the free rows and the layout are those of `other`.
    pub open spec fn same_rows(&self, other: Archetype<C>) -> bool {
        &&& self.table() == other.table()
        &&& self.dead() == other.dead()
        &&& self.stored_layout() == other.stored_layout()
    }

    /// The rows, the columns and their values are those of `other`; the two
    /// may differ in the accessors that are out.
    pub open spec fn same_contents(&self, other: Archetype<C>) -> bool {
        &&& self.same_rows(other)
        &&& self.populated() == other.populated()
        &&& forall|key: TypeKey| #[trigger] self.has_column(key) == other.has_column(key)
        &&& forall|key: TypeKey| #[trigger] self.values(key) == other.values(key)
    }

    /// An archetype that differs from a well-formed one only in the
    /// accessors that are out, each column's record being consistent, is
    /// well formed and has the same contents.
    pub proof fn lemma_same_contents(&self, other: Archetype<C>)
        requires
            other.wf(),
            self.same_rows(other),
            same_values(self.columns(), other.columns()),
            forall|j: int| 0 <= j < self.columns().len() ==> (#[trigger] self.columns()[j]).wf(),
        ensures
            self.wf(),
            self.same_contents(other),
    {
        self.lemma_same_values(other, 0);
        assert forall|key: TypeKey| #[trigger] self.has_column(key) == other.has_column(key) by {
            self.lemma_same_values(other, key);
        }
        assert forall|key: TypeKey| #[trigger] self.values(key) == other.values(key) by {
            self.lemma_same_values(other, key);
        }
    }

    /// The same for one component type: the archetype is well formed, has a
    /// column of the type `key` exactly where `other` has one, and holds
    /// the same values in it.
    pub proof fn lemma_same_values(&self, other: Archetype<C>, key: TypeKey)
        requires
            other.wf(),
            self.same_rows(other),
            same_values(self.columns(), other.columns()),
            forall|j: int| 0 <= j < self.columns().len() ==> (#[trigger] self.columns()[j]).wf(),
        ensures
            self.wf(),
            self.has_column(key) == other.has_column(key),
            self.values(key) == other.values(key),
            self.populated() == other.populated(),
    {
        lemma_same_values_holds(self.columns(), other.columns(), key);
        assert(self.populated() == other.populated()) by {
            assert forall|k: TypeKey| self.has_column(k) == other.has_column(k) by {
                lemma_same_values_holds(self.columns(), other.columns(), k);
            }
        }
        assert forall|i: int, j: int|
            0 <= i < self.columns().len() && 0 <= j < self.columns().len() && i != j implies (
        #[trigger] self.columns()[i]).key() != (#[trigger] self.columns()[j]).key() by {
            assert(other.columns()[i].key() != other.columns()[j].key());
        }
        assert forall|j: int| 0 <= j < self.columns().len() implies {
            &&& self.layout_set().contains((#[trigger] self.columns()[j]).key())
            &&& self.columns()[j]@.len() == self.live_count()
        } by {
            assert(other.columns()[j].wf());
        }
    }

    /// What one write of `value` at row `index` of the column of `key`
    /// makes of the archetype `pre`: that value is replaced, and nothing
    /// else changes, the accessors that are out included.
    pub open spec fn written_from(
        &self,
        pre: Archetype<C>,
        key: TypeKey,
        index: int,
        value: C,
    ) -> bool {
        &&& self.same_rows(pre)
        &&& self.populated() == pre.populated()
        &&& self.values(key) == pre.values(key).update(index, value)
        &&& forall|other: TypeKey| other != key ==> #[trigger] self.values(other) == pre.values(other)
        &&& self.columns().len() == pre.columns().len()
        &&& forall|j: int|
            0 <= j < pre.columns().len() ==> {
                &&& (#[trigger] self.columns()[j]).key() == pre.columns()[j].key()
                &&& self.columns()[j].readers() == pre.columns()[j].readers()
                &&& self.columns()[j].writer() == pre.columns()[j].writer()
            }
    }

    /// With distinct column types, the column found for a type is the one
    /// that stands where that type occurs.
    pub proof fn lemma_column_index(&self, j: int)
        requires
            self.wf(),
            0 <= j < self.columns().len(),
        ensures
            self.has_column(self.columns()[j].key()),
            self.column_index(self.columns()[j].key()) == j,
            self.values(self.columns()[j].key()) == self.columns()[j]@,
    {
        let key = self.columns()[j].key();
        assert(self.has_column(key));
        let i = self.column_index(key);
        assert(0 <= i < self.columns().len() && self.columns()[i].key() == key);
    }

    /// An empty archetype for `layout`. It has no columns yet: each is
    /// created when the first value of its type arrives.
    pub fn new(layout: Layout) -> (archetype: Archetype<C>)
        requires
            layout.wf(),
        ensures
            archetype.wf(),
            archetype.is_free(),
            archetype.layout_set() == layout@,
            archetype.table() == Seq::<ArchetypeEntity>::empty(),
            archetype.dead() == Seq::<usize>::empty(),
            archetype.columns() == Seq::<Column<C>>::empty(),
    {
        Archetype { columns: Vec::new(), entities: Vec::new(), dead_entities: Vec::new(), layout }
    }

    /// The component types of the archetype.
    pub fn layout(&self) -> (layout: &Layout)
        requires
            self.wf(),
        ensures
            layout.wf(),
            layout@ == self.layout_set(),
    {
        &self.layout
    }

    /// The place of the column for `key` among the columns, or their
    /// number where there is none.
    pub(crate) fn find_column(&self, key: TypeKey) -> (j: usize)
        ensures
            j <= self.columns().len(),
            j < self.columns().len() ==> self.columns()[j as int].key() == key,
            j == self.columns().len() ==> forall|t: int|
                0 <= t < self.columns().len() ==> (#[trigger] self.columns()[t]).key() != key,
            j == self.columns().len() <==> !self.has_column(key),
    {
        let mut j: usize = 0;
        while j < self.columns.len() && self.columns[j].type_key() != key
            invariant
                j <= self.columns.len(),
                forall|t: int| 0 <= t < j ==> (#[trigger] self.columns()[t]).key() != key,
            decreases self.columns.len() - j,
        {
            j += 1;
        }
        j
    }

    /// Creates one entity from `prototype`. The entity takes the lowest free
    /// row of the table, whose generation rises by one, or a new last row of
    /// generation 0. Each component is then appended to the column of its
    /// type, which is created if this is the first value of that type.
    pub fn insert(&mut self, prototype: Prototype<C>)
        requires
            old(self).wf(),
            old(self).is_free(),
            prototype.wf(),
            prototype@.dom() == old(self).layout_set(),
            old(self).table().len() < usize::MAX,
        ensures
            final(self).wf(),
            final(self).is_free(),
            final(self).populated(),
            final(self).grown_from(*old(self), prototype),
    {
        let ghost pre = *self;
        let ghost parts = prototype.parts();
        if self.dead_entities.len() > 0 {
            let index = self.dead_entities.remove(0);
            assert(index == pre.dead()[0]);
            let generation = self.entities[index].generation + 1;
            self.entities[index] = ArchetypeEntity { index, generation };
        } else {
            let index = self.entities.len();
            self.entities.push(ArchetypeEntity { index, generation: 0 });
        }
        let mut components = prototype.components();
        while components.len() > 0
            invariant
                pre.wf(),
                pre.is_free(),
                distinct_keys(parts),
                as_map(parts).dom() == pre.layout_set(),
                components@.len() <= parts.len(),
                components@ == parts.take(components@.len() as int),
                self.entities@ == pre.next_table(),
                self.dead_entities@ == pre.next_dead(),
                self.layout == pre.layout,
                pre.columns().len() <= self.columns().len(),
                forall|i: int, j: int|
                    0 <= i < self.columns().len() && 0 <= j < self.columns().len() && i != j ==> (
                    #[trigger] self.columns()[i]).key() != (#[trigger] self.columns()[j]).key(),
                forall|j: int|
                    0 <= j < self.columns().len() ==> {
                        let column = #[trigger] self.columns()[j];
                        &&& column.wf()
                        &&& column.is_free()
                        &&& pre.layout_set().contains(column.key())
                        &&& j < pre.columns().len() ==> column.key() == pre.columns()[j].key()
                        &&& placed(parts, components@.len() as int, column.key()) ==> column@
                            == pre.values(column.key()).push(as_map(parts)[column.key()])
                        &&& !placed(parts, components@.len() as int, column.key()) ==> j
                            < pre.columns().len() && column@ == pre.columns()[j]@
                    },
                forall|p: int|
                    components@.len() <= p < parts.len() ==> self.has_column(
                        (#[trigger] parts[p]).type_key(),
                    ),
            decreases components.len(),
        {
            let ghost m = components@.len() as int;
            let ghost before = self.columns();
            let component = components.pop().unwrap();
            assert(component == parts[m - 1]);
            assert(components@ =~= parts.take(m - 1));
            let key = component.type_id();
            let j = self.find_column(key);
            proof {
                lemma_position(parts, m - 1);
                assert(!placed(parts, m, key)) by {
                    if placed(parts, m, key) {
                        let p = choose|p: int| m <= p < parts.len() && (#[trigger] parts[p]).type_key() == key;
                        assert(parts[p].type_key() != parts[m - 1].type_key());
                    }
                }
                if j < before.len() {
                    pre.lemma_column_index(j as int);
                } else {
                    assert(!pre.has_column(key)) by {
                        if pre.has_column(key) {
                            let t = pre.column_index(key);
                            assert(before[t].key() == key);
                        }
                    }
                }
            }
            if j == self.columns.len() {
                self.columns.push(Column::new(key));
            }
            self.columns[j].push(component);
            proof {
                let after = self.columns();
                assert(after[j as int].key() == key);
                assert(after[j as int]@ == pre.values(key).push(component));
                assert forall|t: int| 0 <= t < after.len() && t != j implies after[t] == before[t]
                    && (#[trigger] after[t]).key() != key by {}
                assert forall|k: TypeKey| placed(parts, m - 1, k) <==> (placed(parts, m, k) || k
                    == key) by {
                    if placed(parts, m - 1, k) {
                        let p = choose|p: int| m - 1 <= p < parts.len() && (#[trigger] parts[p]).type_key() == k;
                        if p >= m {
                            assert(placed(parts, m, k));
                        }
                    }
                    if placed(parts, m, k) {
                        let p = choose|p: int| m <= p < parts.len() && (#[trigger] parts[p]).type_key() == k;
                        assert(placed(parts, m - 1, k));
                    }
                    if k == key {
                        assert(parts[m - 1].type_key() == k);
                    }
                }
                assert forall|p: int| m - 1 <= p < parts.len() implies self.has_column(
                    (#[trigger] parts[p]).type_key(),
                ) by {
                    if p == m - 1 {
                        assert(after[j as int].key() == key);
                    } else {
                        let k = parts[p].type_key();
                        let t = choose|t: int| 0 <= t < before.len() && (#[trigger] before[t]).key() == k;
                        assert(after[t].key() == k);
                    }
                }
            }
        }
        proof {
            let ghost_map = as_map(parts);
            assert forall|k: TypeKey| pre.layout_set().contains(k) implies placed(parts, 0, k) by {
                assert(ghost_map.dom().contains(k));
                let p = position(parts, k);
                assert(parts[p].type_key() == k);
            }
            assert(pre.live_count() >= 0);
            assert forall|j: int| 0 <= j < self.columns().len() implies (
            #[trigger] self.columns()[j])@.len() == pre.live_count() + 1 by {
                let k = self.columns()[j].key();
                if pre.has_column(k) {
                    let t = pre.column_index(k);
                    pre.lemma_column_index(t);
                } else {
                    assert(!pre.populated());
                }
            }
            assert(self.populated()) by {
                assert forall|k: TypeKey| self.layout_set().contains(k) implies self.has_column(k) by {
                    let p = position(parts, k);
                    assert(parts[p].type_key() == k);
                }
            }
            assert(self.wf());
            assert forall|k: TypeKey| pre.layout_set().contains(k) implies #[trigger] self.values(k)
                == pre.values(k).push(prototype@[k]) by {
                assert(self.has_column(k));
                let j = self.column_index(k);
                self.lemma_column_index(j);
            }
        }
    }

    /// Hands out an accessor to the column of `key`, a writing one if
    /// `exclusive` is set. Where the archetype has no such column, nothing
    /// is handed out.
    pub(crate) fn acquire(&mut self, key: TypeKey, exclusive: bool) -> (guard: Option<ColumnGuard>)
        requires
            old(self).wf(),
            lendable(old(self).columns(), key, exclusive),
        ensures
            final(self).wf(),
            final(self).same_contents(*old(self)),
            final(self).columns() == lend(old(self).columns(), key, exclusive),
            guard is Some == old(self).has_column(key),
            guard is Some ==> {
                &&& guard.unwrap().type_key == key
                &&& guard.unwrap().len == old(self).values(key).len()
                &&& guard.unwrap().exclusive == exclusive
            },
    {
        let ghost pre = *self;
        let j = self.find_column(key);
        if j == self.columns.len() {
            return None;
        }
        proof {
            pre.lemma_column_index(j as int);
        }
        if exclusive {
            self.columns[j].acquire_write();
        } else {
            self.columns[j].acquire_read();
        }
        let len = self.columns[j].len();
        proof {
            assert(self.columns() =~= lend(pre.columns(), key, exclusive));
            lemma_lend_same_values(pre.columns(), key, exclusive);
            self.lemma_same_contents(pre);
        }
        Some(ColumnGuard { type_key: key, len, exclusive })
    }

    /// A read accessor to the column of `key`, or nothing where the
    /// archetype has no such column. The column's writer must not be out.
    pub fn get_column(&mut self, key: TypeKey) -> (guard: Option<ColumnGuard>)
        requires
            old(self).wf(),
            lendable(old(self).columns(), key, false),
        ensures
            final(self).wf(),
            final(self).same_contents(*old(self)),
            final(self).columns() == lend(old(self).columns(), key, false),
            guard is Some == old(self).has_column(key),
            guard is Some ==> {
                &&& guard.unwrap().type_key == key
                &&& guard.unwrap().len == old(self).values(key).len()
                &&& guard.unwrap().exclusive == false
            },
    {
        self.acquire(key, false)
    }

    /// The write accessor to the column of `key`, or nothing where the
    /// archetype has no such column. No accessor to the column may be out.
    pub fn get_column_mut(&mut self, key: TypeKey) -> (guard: Option<ColumnGuard>)
        requires
            old(self).wf(),
            lendable(old(self).columns(), key, true),
        ensures
            final(self).wf(),
            final(self).same_contents(*old(self)),
            final(self).columns() == lend(old(self).columns(), key, true),
            guard is Some == old(self).has_column(key),
            guard is Some ==> {
                &&& guard.unwrap().type_key == key
                &&& guard.unwrap().len == old(self).values(key).len()
                &&& guard.unwrap().exclusive == true
            },
    {
        self.acquire(key, true)
    }

    /// Whether an accessor of the given kind to the column of `key` may be
    /// handed out.
    pub fn can_lend(&self, key: TypeKey, exclusive: bool) -> (possible: bool)
        requires
            self.wf(),
        ensures
            possible == lendable(self.columns(), key, exclusive),
    {
        let j = self.find_column(key);
        if j == self.columns.len() {
            return true;
        }
        proof {
            self.lemma_column_index(j as int);
        }
        if exclusive {
            self.columns[j].can_write()
        } else {
            self.columns[j].can_read()
        }
    }

    /// Takes back an accessor to the column of `key`, a writing one if
    /// `exclusive` is set. Where the archetype has no such column, there is
    /// nothing to take back.
    pub(crate) fn relinquish(&mut self, key: TypeKey, exclusive: bool)
        requires
            old(self).wf(),
            returnable(old(self).columns(), key, exclusive),
        ensures
            final(self).wf(),
            final(self).same_contents(*old(self)),
            final(self).columns() == give_back(old(self).columns(), key, exclusive),
    {
        let ghost pre = *self;
        let j = self.find_column(key);
        if j == self.columns.len() {
            return ;
        }
        proof {
            pre.lemma_column_index(j as int);
        }
        if exclusive {
            self.columns[j].release_write();
        } else {
            self.columns[j].release_read();
        }
        proof {
            assert(self.columns() =~= give_back(pre.columns(), key, exclusive));
            lemma_give_back_same_values(pre.columns(), key, exclusive);
            self.lemma_same_contents(pre);
        }
    }

    /// Takes back an accessor that `get_column` or `get_column_mut` handed
    /// out.
    pub fn release(&mut self, guard: ColumnGuard)
        requires
            old(self).wf(),
            returnable(old(self).columns(), guard.type_key, guard.exclusive),
        ensures
            final(self).wf(),
            final(self).same_contents(*old(self)),
            final(self).columns() == give_back(old(self).columns(), guard.type_key, guard.exclusive),
    {
        self.relinquish(guard.type_key, guard.exclusive)
    }

    /// Whether an accessor of the given kind to the column of `key` is out
    /// and can be taken back.
    pub fn can_release(&self, key: TypeKey, exclusive: bool) -> (possible: bool)
        requires
            self.wf(),
        ensures
            possible == returnable(self.columns(), key, exclusive),
    {
        let j = self.find_column(key);
        if j == self.columns.len() {
            return true;
        }
        proof {
            self.lemma_column_index(j as int);
        }
        if exclusive {
            self.columns[j].is_written()
        } else {
            self.columns[j].reader_count() > 0
        }
    }

    /// The value of type `key` in row `index` of its column, or nothing
    /// where the archetype has no such column or the column is shorter.
    pub fn read(&self, key: TypeKey, index: usize) -> (value: Option<&C>)
        requires
            self.wf(),
        ensures
            value == (if self.has_column(key) && index < self.values(key).len() {
                Some(&self.values(key)[index as int])
            } else {
                None
            }),
    {
        let j = self.find_column(key);
        if j == self.columns.len() {
            return None;
        }
        proof {
            self.lemma_column_index(j as int);
        }
        if index < self.columns[j].len() {
            Some(self.columns[j].get(index))
        } else {
            None
        }
    }

    /// Replaces the value of type `key` in row `index` of its column. The
    /// column's write accessor must be out.
    pub fn write(&mut self, key: TypeKey, index: usize, value: C)
        requires
            old(self).wf(),
            old(self).has_column(key),
            old(self).columns()[old(self).column_index(key)].writer(),
            index < old(self).values(key).len(),
            value.type_key() == key,
        ensures
            final(self).wf(),
            final(self).written_from(*old(self), key, index as int, value),
    {
        let ghost pre = *self;
        let j = self.find_column(key);
        proof {
            pre.lemma_column_index(j as int);
        }
        self.columns[j].set(index, value);
        proof {
            assert forall|t: int| 0 <= t < self.columns().len() implies (#[trigger] self.columns()[t]).key()
                == pre.columns()[t].key() by {}
            assert forall|t: int| 0 <= t < self.columns().len() && t != j implies (
            #[trigger] self.columns()[t]) == pre.columns()[t] by {}
            assert forall|k: TypeKey| #[trigger]
                self.has_column(k) == pre.has_column(k) && (pre.has_column(k)
                    ==> self.column_index(k) == pre.column_index(k)) by {
                if self.has_column(k) {
                    let t = self.column_index(k);
                    assert(pre.columns()[t].key() == k);
                }
                if pre.has_column(k) {
                    let t = pre.column_index(k);
                    assert(self.columns()[t].key() == k);
                    let u = self.column_index(k);
                    assert(pre.columns()[u].key() == k);
                }
            }
            assert forall|other: TypeKey| other != key implies #[trigger] self.values(other)
                == pre.values(other) by {
                assert(self.has_column(other) == pre.has_column(other));
                if pre.has_column(other) {
                    let t = pre.column_index(other);
                    assert(t != j);
                }
            }
            assert(self.populated() == pre.populated()) by {
                assert forall|k: TypeKey| self.layout_set().contains(k) implies (self.has_column(k)
                    == pre.has_column(k)) by {}
            }
            assert forall|a: int, b: int|
                0 <= a < self.columns().len() && 0 <= b < self.columns().len() && a != b implies (
            #[trigger] self.columns()[a]).key() != (#[trigger] self.columns()[b]).key() by {
                assert(pre.columns()[a].key() != pre.columns()[b].key());
            }
            assert forall|t: int| 0 <= t < self.columns().len() implies {
                &&& (#[trigger] self.columns()[t]).wf()
                &&& self.layout_set().contains(self.columns()[t].key())
                &&& self.columns()[t]@.len() == self.live_count()
            } by {
                assert(pre.columns()[t].wf());
            }
        }
    }

    /// Whether no accessor is out on any column.
    pub fn is_unborrowed(&self) -> (free: bool)
        ensures
            free == self.is_free(),
    {
        let mut j: usize = 0;
        while j < self.columns.len()
            invariant
                j <= self.columns.len(),
                forall|t: int| 0 <= t < j ==> (#[trigger] self.columns()[t]).is_free(),
            decreases self.columns.len() - j,
        {
            if !(self.columns[j].can_write()) {
                assert(!self.columns()[j as int].is_free());
                return false;
            }
            j += 1;
        }
        true
    }

    /// Number of rows of the entity table, live or free.
    pub fn slots(&self) -> (n: usize)
        ensures
            n == self.table().len(),
    {
        self.entities.len()
    }

    /// Number of live entities.
    pub fn len(&self) -> (n: usize)
        requires
            self.wf(),
        ensures
            n == self.live_count(),
    {
        self.entities.len() - self.dead_entities.len()
    }

    /// Whether the entity that `entry` names is still the occupant of its
    /// row: the row's generation is the one the handle carries.
    pub fn is_alive(&self, entry: ArchetypeEntry) -> (alive: bool)
        requires
            entry.index < self.table().len(),
        ensures
            alive == (self.table()[entry.index as int].generation == entry.generation),
    {
        self.entities[entry.index].generation == entry.generation
    }

    /// The live entities, by ascending row.
    pub fn entities(&self) -> (live: Vec<ArchetypeEntity>)
        requires
            self.wf(),
        ensures
            live@ == self.live(),
            live@.len() == self.live_count(),
    {
        let mut live: Vec<ArchetypeEntity> = Vec::new();
        let mut i: usize = 0;
        let mut d: usize = 0;
        while i < self.entities.len()
            invariant
                self.wf(),
                i <= self.entities.len(),
                d <= self.dead_entities.len(),
                d <= i,
                forall|k: int| 0 <= k < d ==> (#[trigger] self.dead()[k]) < i,
                forall|k: int| d <= k < self.dead().len() ==> (#[trigger] self.dead()[k]) >= i,
                live@ == self.live_prefix(i as nat),
                live@.len() == i - d,
            decreases self.entities.len() - i,
        {
            if d < self.dead_entities.len() && self.dead_entities[d] == i {
                assert(self.is_dead(i as int));
                d += 1;
            } else {
                assert(!self.is_dead(i as int)) by {
                    if self.is_dead(i as int) {
                        let k = choose|k: int| 0 <= k < self.dead().len() && #[trigger] self.dead()[k] == i;
                        if k > d {
                            assert(self.dead()[d as int] < self.dead()[k]);
                        }
                    }
                }
                live.push(self.entities[i]);
            }
            i += 1;
        }
        assert(d == self.dead_entities.len()) by {
            if d < self.dead_entities.len() {
                assert(self.dead()[d as int] >= i);
            }
        }
        live
    }
}

} // verus!
