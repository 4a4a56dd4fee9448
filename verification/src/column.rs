//! Columns: the densely packed values of one component type, with the
//! record of the accessors that are currently out on them.

use vstd::prelude::*;
use crate::component::Component;
use crate::layout::TypeKey;

verus! {

/// An accessor to one column, as it is handed out: the type of the column,
/// the number of values it held at that time, and whether the accessor
/// writes.
#[derive(Clone, Copy, Debug, PartialEq, Eq, Structural)]
pub struct ColumnGuard {
    pub type_key: TypeKey,
    pub len: usize,
    pub exclusive: bool,
}

/// Whether one of `columns` holds the type `key`.
pub open spec fn holds<C: Component>(columns: Seq<Column<C>>, key: TypeKey) -> bool {
    exists|j: int| 0 <= j < columns.len() && (#[trigger] columns[j]).key() == key
}

/// A place among `columns` at which the column of the type `key` stands.
pub open spec fn place<C: Component>(columns: Seq<Column<C>>, key: TypeKey) -> int {
    choose|j: int| 0 <= j < columns.len() && (#[trigger] columns[j]).key() == key
}

/// Whether an accessor to the column of `key` may be handed out: a writing
/// one only while no accessor is out, a reading one only while no writer
/// is. Where no column holds `key` there is nothing to refuse.
pub open spec fn lendable<C: Component>(
    columns: Seq<Column<C>>,
    key: TypeKey,
    exclusive: bool,
) -> bool {
    holds(columns, key) ==> if exclusive {
        columns[place(columns, key)].writable()
    } else {
        columns[place(columns, key)].readable()
    }
}

/// The columns once an accessor to the column of `key` is out.
pub open spec fn lend<C: Component>(columns: Seq<Column<C>>, key: TypeKey, exclusive: bool) -> Seq<
    Column<C>,
> {
    if holds(columns, key) {
        let j = place(columns, key);
        columns.update(
            j,
            if exclusive {
                columns[j].with_writer()
            } else {
                columns[j].with_reader()
            },
        )
    } else {
        columns
    }
}

/// Whether an accessor to the column of `key` is out and can come back.
pub open spec fn returnable<C: Component>(
    columns: Seq<Column<C>>,
    key: TypeKey,
    exclusive: bool,
) -> bool {
    holds(columns, key) ==> if exclusive {
        columns[place(columns, key)].writer()
    } else {
        columns[place(columns, key)].readers() > 0
    }
}

/// The columns once an accessor to the column of `key` has come back.
pub open spec fn give_back<C: Component>(columns: Seq<Column<C>>, key: TypeKey, exclusive: bool) -> Seq<
    Column<C>,
> {
    if holds(columns, key) {
        let j = place(columns, key);
        columns.update(
            j,
            if exclusive {
                columns[j].without_writer()
            } else {
                columns[j].without_reader()
            },
        )
    } else {
        columns
    }
}

/// The two lists hold the same types with the same values, place by place;
/// they may differ in the accessors that are out.
pub open spec fn same_values<C: Component>(a: Seq<Column<C>>, b: Seq<Column<C>>) -> bool {
    &&& a.len() == b.len()
    &&& forall|j: int| 0 <= j < a.len() ==> (#[trigger] a[j]).key() == b[j].key() && a[j]@ == b[j]@
}

/// Handing out an accessor changes neither the types nor the values held.
pub proof fn lemma_lend_same_values<C: Component>(
    columns: Seq<Column<C>>,
    key: TypeKey,
    exclusive: bool,
)
    ensures
        same_values(lend(columns, key, exclusive), columns),
{
}

/// Taking back an accessor changes neither the types nor the values held.
pub proof fn lemma_give_back_same_values<C: Component>(
    columns: Seq<Column<C>>,
    key: TypeKey,
    exclusive: bool,
)
    ensures
        same_values(give_back(columns, key, exclusive), columns),
{
}

/// Lists with the same types hold the same types, at the same places.
pub proof fn lemma_same_values_holds<C: Component>(
    a: Seq<Column<C>>,
    b: Seq<Column<C>>,
    key: TypeKey,
)
    requires
        same_values(a, b),
        forall|i: int, j: int|
            0 <= i < b.len() && 0 <= j < b.len() && i != j ==> (#[trigger] b[i]).key() != (
            #[trigger] b[j]).key(),
    ensures
        holds(a, key) == holds(b, key),
        holds(b, key) ==> place(a, key) == place(b, key),
{
    if holds(a, key) {
        let j = place(a, key);
        assert(b[j].key() == key);
    }
    if holds(b, key) {
        let j = place(b, key);
        assert(a[j].key() == key);
        let i = place(a, key);
        assert(b[i].key() == key);
    }
}

/// No two of `columns` hold the same type.
pub open spec fn distinct_columns<C: Component>(columns: Seq<Column<C>>) -> bool {
    forall|i: int, j: int|
        0 <= i < columns.len() && 0 <= j < columns.len() && i != j ==> (#[trigger] columns[i]).key() != (
        #[trigger] columns[j]).key()
}

/// An accessor that was handed out can come back, and the columns are then
/// as they were before.
pub proof fn lemma_lend_give_back<C: Component>(
    columns: Seq<Column<C>>,
    key: TypeKey,
    exclusive: bool,
)
    requires
        distinct_columns(columns),
        lendable(columns, key, exclusive),
    ensures
        returnable(lend(columns, key, exclusive), key, exclusive),
        give_back(lend(columns, key, exclusive), key, exclusive) == columns,
{
    lemma_lend_same_values(columns, key, exclusive);
    lemma_same_values_holds(lend(columns, key, exclusive), columns, key);
    if holds(columns, key) {
        let j = place(columns, key);
        if exclusive {
            assert(columns[j].with_writer().without_writer() == columns[j]);
        } else {
            assert(columns[j].with_reader().without_reader() == columns[j]);
        }
    }
    assert(give_back(lend(columns, key, exclusive), key, exclusive) =~= columns);
}

/// The values of one component type, guarded by a reader-writer record:
/// any number of readers, or one writer, never both.
pub struct Column<C: Component> {
    pub(crate) type_key: TypeKey,
    pub(crate) values: Vec<C>,
    pub(crate) readers: usize,
    pub(crate) writer: bool,
}

impl<C: Component> Column<C> {
    /// The stored values, oldest first.
    pub open(crate) spec fn view(&self) -> Seq<C> {
        self.values@
    }

    /// The key of the component type that the column holds.
    pub open(crate) spec fn key(&self) -> TypeKey {
        self.type_key
    }

    /// Number of read accessors that are out.
    pub open(crate) spec fn readers(&self) -> nat {
        self.readers as nat
    }

    /// Whether the write accessor is out.
    pub open(crate) spec fn writer(&self) -> bool {
        self.writer
    }

    /// Every value belongs to the column's type, and readers never coexist
    /// with the writer.
    pub open(crate) spec fn wf(&self) -> bool {
        &&& forall|i: int| 0 <= i < self.values@.len() ==> (#[trigger] self.values@[i]).type_key() == self.type_key
        &&& !(self.writer && self.readers > 0)
    }

    /// No accessor is out.
    pub open spec fn is_free(&self) -> bool {
        self.readers() == 0 && !self.writer()
    }

    /// A further read accessor may be handed out.
    pub open spec fn readable(&self) -> bool {
        !self.writer() && self.readers() < usize::MAX
    }

    /// The write accessor may be handed out.
    pub open spec fn writable(&self) -> bool {
        self.is_free()
    }

    /// The column as it is once one more read accessor is out.
    pub open(crate) spec fn with_reader(self) -> Column<C> {
        Column { readers: (self.readers + 1) as usize, ..self }
    }

    /// The column as it is once the write accessor is out.
    pub open(crate) spec fn with_writer(self) -> Column<C> {
        Column { writer: true, ..self }
    }

    /// The column as it is once one read accessor has come back.
    pub open(crate) spec fn without_reader(self) -> Column<C> {
        Column { readers: (self.readers - 1) as usize, ..self }
    }

    /// The column as it is once the write accessor has come back.
    pub open(crate) spec fn without_writer(self) -> Column<C> {
        Column { writer: false, ..self }
    }

    /// An empty column for the component type `type_key`, with no accessor out.
    pub fn new(type_key: TypeKey) -> (column: Column<C>)
        ensures
            column.wf(),
            column.key() == type_key,
            column@ == Seq::<C>::empty(),
            column.is_free(),
    {
        Column { type_key, values: Vec::new(), readers: 0, writer: false }
    }

    /// The key of the component type that the column holds.
    pub fn type_key(&self) -> (key: TypeKey)
        ensures
            key == self.key(),
    {
        self.type_key
    }

    /// Number of values stored.
    pub fn len(&self) -> (n: usize)
        ensures
            n == self@.len(),
    {
        self.values.len()
    }

    /// Appends one value. The value must be of the column's type and no
    /// accessor may be out.
    pub fn push(&mut self, component: C)
        requires
            old(self).wf(),
            old(self).is_free(),
            component.type_key() == old(self).key(),
        ensures
            final(self).wf(),
            final(self)@ == old(self)@.push(component),
            final(self).key() == old(self).key(),
            final(self).is_free(),
    {
        self.values.push(component);
    }

    /// The value at `index`.
    pub fn get(&self, index: usize) -> (value: &C)
        requires
            index < self@.len(),
        ensures
            *value == self@[index as int],
    {
        &self.values[index]
    }

    /// Replaces the value at `index`. Only the holder of the write accessor
    /// may do so.
    pub fn set(&mut self, index: usize, component: C)
        requires
            old(self).wf(),
            old(self).writer(),
            index < old(self)@.len(),
            component.type_key() == old(self).key(),
        ensures
            final(self).wf(),
            final(self)@ == old(self)@.update(index as int, component),
            final(self).key() == old(self).key(),
            final(self).readers() == old(self).readers(),
            final(self).writer(),
    {
        self.values[index] = component;
    }

    /// Number of read accessors that are out.
    pub fn reader_count(&self) -> (n: usize)
        ensures
            n == self.readers(),
    {
        self.readers
    }

    /// Whether the write accessor is out.
    pub fn is_written(&self) -> (held: bool)
        ensures
            held == self.writer(),
    {
        self.writer
    }

    /// Whether a further read accessor may be handed out.
    pub fn can_read(&self) -> (r: bool)
        ensures
            r == self.readable(),
    {
        !self.writer && self.readers < usize::MAX
    }

    /// Whether the write accessor may be handed out.
    pub fn can_write(&self) -> (r: bool)
        ensures
            r == self.writable(),
    {
        !self.writer && self.readers == 0
    }

    /// Hands out one more read accessor.
    pub fn acquire_read(&mut self)
        requires
            old(self).wf(),
            old(self).readable(),
        ensures
            *final(self) == old(self).with_reader(),
            final(self).wf(),
            final(self)@ == old(self)@,
            final(self).key() == old(self).key(),
            final(self).readers() == old(self).readers() + 1,
            !final(self).writer(),
    {
        self.readers += 1;
    }

    /// Hands out the write accessor.
    pub fn acquire_write(&mut self)
        requires
            old(self).wf(),
            old(self).writable(),
        ensures
            *final(self) == old(self).with_writer(),
            final(self).wf(),
            final(self)@ == old(self)@,
            final(self).key() == old(self).key(),
            final(self).readers() == 0,
            final(self).writer(),
    {
        self.writer = true;
    }

    /// Takes back one read accessor.
    pub fn release_read(&mut self)
        requires
            old(self).wf(),
            old(self).readers() > 0,
        ensures
            *final(self) == old(self).without_reader(),
            final(self).wf(),
            final(self)@ == old(self)@,
            final(self).key() == old(self).key(),
            final(self).readers() == old(self).readers() - 1,
            !final(self).writer(),
    {
        self.readers -= 1;
    }

    /// Takes back the write accessor.
    pub fn release_write(&mut self)
        requires
            old(self).wf(),
            old(self).writer(),
        ensures
            *final(self) == old(self).without_writer(),
            final(self).wf(),
            final(self)@ == old(self)@,
            final(self).key() == old(self).key(),
            final(self).is_free(),
    {
        self.writer = false;
    }
}

} // verus!
