//! Queries: walks over the rows of every archetype whose layout matches a
//! list of requested accesses and a predicate.
//!
//! A query first resolves: in each matching archetype it takes one accessor
//! per requested access, reading or writing. It then yields the rows of
//! those archetypes one by one, and at the end gives the accessors back.

use vstd::prelude::*;
use crate::archetypes::Archetype;
use crate::column::{
    distinct_columns, give_back, holds, lemma_lend_give_back, lemma_lend_same_values, lend, lendable,
    place, returnable, same_values, Column,
};
use crate::component::Component;
use crate::layout::{Layout, TypeKey};
use crate::systems::Provider;
use crate::world::World;

verus! {

/// One requested access to a component type: reading or writing, required
/// or optional.
#[derive(Clone, Copy, Debug, PartialEq, Eq, Structural)]
pub enum Access {
    /// Read the component; the archetype must have it.
    Ref(TypeKey),
    /// Write the component; the archetype must have it.
    Mut(TypeKey),
    /// Read the component where the archetype has it.
    OptionRef(TypeKey),
    /// Write the component where the archetype has it.
    OptionMut(TypeKey),
}

impl Access {
    /// The component type asked for.
    pub open spec fn key(&self) -> TypeKey {
        match self {
            Access::Ref(key) => *key,
            Access::Mut(key) => *key,
            Access::OptionRef(key) => *key,
            Access::OptionMut(key) => *key,
        }
    }

    /// Whether the access is optional.
    pub open spec fn optional(&self) -> bool {
        self is OptionRef || self is OptionMut
    }

    /// Whether the access writes.
    pub open spec fn exclusive(&self) -> bool {
        self is Mut || self is OptionMut
    }

    /// The component type asked for.
    pub fn type_key(&self) -> (key: TypeKey)
        ensures
            key == self.key(),
    {
        match self {
            Access::Ref(key) => *key,
            Access::Mut(key) => *key,
            Access::OptionRef(key) => *key,
            Access::OptionMut(key) => *key,
        }
    }

    /// Whether the access is optional.
    pub fn is_optional(&self) -> (optional: bool)
        ensures
            optional == self.optional(),
    {
        match self {
            Access::Ref(_) => false,
            Access::Mut(_) => false,
            Access::OptionRef(_) => true,
            Access::OptionMut(_) => true,
        }
    }

    /// Whether the access writes.
    pub fn is_exclusive(&self) -> (exclusive: bool)
        ensures
            exclusive == self.exclusive(),
    {
        match self {
            Access::Ref(_) => false,
            Access::Mut(_) => true,
            Access::OptionRef(_) => false,
            Access::OptionMut(_) => true,
        }
    }
}

/// A condition on the layout of an archetype.
pub trait QueryPredicate {
    /// Whether the condition holds of `layout`.
    spec fn holds(&self, layout: Set<TypeKey>) -> bool;

    /// Whether the condition holds of `layout`.
    fn matches(&self, layout: &Layout) -> (matched: bool)
        ensures
            matched == self.holds(layout@),
    ;
}

/// Holds where the layout has the component type.
#[derive(Clone, Copy, Debug, PartialEq, Eq, Structural)]
pub struct With(pub TypeKey);

/// Holds where the layout lacks the component type.
#[derive(Clone, Copy, Debug, PartialEq, Eq, Structural)]
pub struct Without(pub TypeKey);

impl QueryPredicate for Access {
    /// A required access holds where the layout has its type; an optional
    /// one holds everywhere.
    open spec fn holds(&self, layout: Set<TypeKey>) -> bool {
        self.optional() || layout.contains(self.key())
    }

    fn matches(&self, layout: &Layout) -> (matched: bool) {
        self.is_optional() || layout.contains(self.type_key())
    }
}

impl QueryPredicate for With {
    open spec fn holds(&self, layout: Set<TypeKey>) -> bool {
        layout.contains(self.0)
    }

    fn matches(&self, layout: &Layout) -> (matched: bool) {
        layout.contains(self.0)
    }
}

impl QueryPredicate for Without {
    open spec fn holds(&self, layout: Set<TypeKey>) -> bool {
        !layout.contains(self.0)
    }

    fn matches(&self, layout: &Layout) -> (matched: bool) {
        !layout.contains(self.0)
    }
}

impl QueryPredicate for () {
    open spec fn holds(&self, layout: Set<TypeKey>) -> bool {
        true
    }

    fn matches(&self, layout: &Layout) -> (matched: bool) {
        true
    }
}

impl<A: QueryPredicate, B: QueryPredicate> QueryPredicate for (A, B) {
    open spec fn holds(&self, layout: Set<TypeKey>) -> bool {
        self.0.holds(layout) && self.1.holds(layout)
    }

    fn matches(&self, layout: &Layout) -> (matched: bool) {
        self.0.matches(layout) && self.1.matches(layout)
    }
}

impl<A: QueryPredicate, B: QueryPredicate, D: QueryPredicate> QueryPredicate for (A, B, D) {
    open spec fn holds(&self, layout: Set<TypeKey>) -> bool {
        self.0.holds(layout) && self.1.holds(layout) && self.2.holds(layout)
    }

    fn matches(&self, layout: &Layout) -> (matched: bool) {
        self.0.matches(layout) && self.1.matches(layout) && self.2.matches(layout)
    }
}

impl<
    A: QueryPredicate,
    B: QueryPredicate,
    D: QueryPredicate,
    E: QueryPredicate,
> QueryPredicate for (A, B, D, E) {
    open spec fn holds(&self, layout: Set<TypeKey>) -> bool {
        &&& self.0.holds(layout)
        &&& self.1.holds(layout)
        &&& self.2.holds(layout)
        &&& self.3.holds(layout)
    }

    fn matches(&self, layout: &Layout) -> (matched: bool) {
        self.0.matches(layout)
            && self.1.matches(layout)
            && self.2.matches(layout)
            && self.3.matches(layout)
    }
}

impl<
    A: QueryPredicate,
    B: QueryPredicate,
    D: QueryPredicate,
    E: QueryPredicate,
    F: QueryPredicate,
> QueryPredicate for (A, B, D, E, F) {
    open spec fn holds(&self, layout: Set<TypeKey>) -> bool {
        &&& self.0.holds(layout)
        &&& self.1.holds(layout)
        &&& self.2.holds(layout)
        &&& self.3.holds(layout)
        &&& self.4.holds(layout)
    }

    fn matches(&self, layout: &Layout) -> (matched: bool) {
        self.0.matches(layout)
            && self.1.matches(layout)
            && self.2.matches(layout)
            && self.3.matches(layout)
            && self.4.matches(layout)
    }
}

impl<
    A: QueryPredicate,
    B: QueryPredicate,
    D: QueryPredicate,
    E: QueryPredicate,
    F: QueryPredicate,
    G: QueryPredicate,
> QueryPredicate for (A, B, D, E, F, G) {
    open spec fn holds(&self, layout: Set<TypeKey>) -> bool {
        &&& self.0.holds(layout)
        &&& self.1.holds(layout)
        &&& self.2.holds(layout)
        &&& self.3.holds(layout)
        &&& self.4.holds(layout)
        &&& self.5.holds(layout)
    }

    fn matches(&self, layout: &Layout) -> (matched: bool) {
        self.0.matches(layout)
            && self.1.matches(layout)
            && self.2.matches(layout)
            && self.3.matches(layout)
            && self.4.matches(layout)
            && self.5.matches(layout)
    }
}

impl<
    A: QueryPredicate,
    B: QueryPredicate,
    D: QueryPredicate,
    E: QueryPredicate,
    F: QueryPredicate,
    G: QueryPredicate,
    H: QueryPredicate,
> QueryPredicate for (A, B, D, E, F, G, H) {
    open spec fn holds(&self, layout: Set<TypeKey>) -> bool {
        &&& self.0.holds(layout)
        &&& self.1.holds(layout)
        &&& self.2.holds(layout)
        &&& self.3.holds(layout)
        &&& self.4.holds(layout)
        &&& self.5.holds(layout)
        &&& self.6.holds(layout)
    }

    fn matches(&self, layout: &Layout) -> (matched: bool) {
        self.0.matches(layout)
            && self.1.matches(layout)
            && self.2.matches(layout)
            && self.3.matches(layout)
            && self.4.matches(layout)
            && self.5.matches(layout)
            && self.6.matches(layout)
    }
}

impl<
    A: QueryPredicate,
    B: QueryPredicate,
    D: QueryPredicate,
    E: QueryPredicate,
    F: QueryPredicate,
    G: QueryPredicate,
    H: QueryPredicate,
    I: QueryPredicate,
> QueryPredicate for (A, B, D, E, F, G, H, I) {
    open spec fn holds(&self, layout: Set<TypeKey>) -> bool {
        &&& self.0.holds(layout)
        &&& self.1.holds(layout)
        &&& self.2.holds(layout)
        &&& self.3.holds(layout)
        &&& self.4.holds(layout)
        &&& self.5.holds(layout)
        &&& self.6.holds(layout)
        &&& self.7.holds(layout)
    }

    fn matches(&self, layout: &Layout) -> (matched: bool) {
        self.0.matches(layout)
            && self.1.matches(layout)
            && self.2.matches(layout)
            && self.3.matches(layout)
            && self.4.matches(layout)
            && self.5.matches(layout)
            && self.6.matches(layout)
            && self.7.matches(layout)
    }
}

/// Whether every access of `items` holds of `layout`.
pub open spec fn all_hold(items: Seq<Access>, layout: Set<TypeKey>) -> bool {
    forall|i: int| 0 <= i < items.len() ==> (#[trigger] items[i]).holds(layout)
}

/// Whether a query for `items` under `predicate` takes in an archetype of
/// `layout`: every access holds, and so does the predicate.
pub open spec fn selects<P: QueryPredicate>(
    items: Seq<Access>,
    predicate: P,
    layout: Set<TypeKey>,
) -> bool {
    all_hold(items, layout) && predicate.holds(layout)
}

/// What a query asks for: a list of accesses. One access is such a list,
/// and so is a tuple of lists, which stands for its parts one after the
/// other.
pub trait QueryItem: QueryPredicate {
    /// The accesses asked for, in order.
    spec fn accesses(&self) -> Seq<Access>;

    /// The accesses asked for, in order.
    fn to_accesses(&self) -> (list: Vec<Access>)
        ensures
            list@ == self.accesses(),
    ;

    /// As a condition on layouts, the list holds where each of its accesses
    /// does.
    proof fn lemma_holds(&self, layout: Set<TypeKey>)
        ensures
            self.holds(layout) == all_hold(self.accesses(), layout),
    ;
}

impl QueryItem for Access {
    open spec fn accesses(&self) -> Seq<Access> {
        seq![*self]
    }

    fn to_accesses(&self) -> (list: Vec<Access>) {
        vec![*self]
    }

    proof fn lemma_holds(&self, layout: Set<TypeKey>) {
        assert(self.accesses()[0] == *self);
    }
}

impl QueryPredicate for Vec<Access> {
    open spec fn holds(&self, layout: Set<TypeKey>) -> bool {
        all_hold(self@, layout)
    }

    fn matches(&self, layout: &Layout) -> (matched: bool) {
        let mut i: usize = 0;
        while i < self.len()
            invariant
                i <= self.len(),
                forall|j: int| 0 <= j < i ==> (#[trigger] self@[j]).holds(layout@),
            decreases self.len() - i,
        {
            if !self[i].matches(layout) {
                return false;
            }
            i += 1;
        }
        true
    }
}

impl QueryItem for Vec<Access> {
    open spec fn accesses(&self) -> Seq<Access> {
        self@
    }

    fn to_accesses(&self) -> (list: Vec<Access>) {
        let mut list: Vec<Access> = Vec::new();
        let mut i: usize = 0;
        while i < self.len()
            invariant
                i <= self.len(),
                list@ == self@.take(i as int),
            decreases self.len() - i,
        {
            list.push(self[i]);
            assert(self@.take(i as int + 1) =~= self@.take(i as int).push(self@[i as int]));
            i += 1;
        }
        assert(self@.take(i as int) =~= self@);
        list
    }

    proof fn lemma_holds(&self, layout: Set<TypeKey>) {
    }
}

/// A list of accesses that is made of two lists holds where both do.
pub proof fn lemma_all_hold_concat(first: Seq<Access>, second: Seq<Access>, layout: Set<TypeKey>)
    ensures
        all_hold(first + second, layout) == (all_hold(first, layout) && all_hold(second, layout)),
{
    let both = first + second;
    if all_hold(both, layout) {
        assert forall|i: int| 0 <= i < first.len() implies (#[trigger] first[i]).holds(layout) by {
            assert(both[i] == first[i]);
        }
        assert forall|i: int| 0 <= i < second.len() implies (#[trigger] second[i]).holds(layout) by {
            assert(both[first.len() + i] == second[i]);
        }
    }
    if all_hold(first, layout) && all_hold(second, layout) {
        assert forall|i: int| 0 <= i < both.len() implies (#[trigger] both[i]).holds(layout) by {
            if i < first.len() {
                assert(both[i] == first[i]);
            } else {
                assert(both[i] == second[i - first.len()]);
            }
        }
    }
}

impl<A: QueryItem, B: QueryItem> QueryItem for (A, B) {
    open spec fn accesses(&self) -> Seq<Access> {
        self.0.accesses() + self.1.accesses()
    }

    fn to_accesses(&self) -> (list: Vec<Access>) {
        let mut list = self.0.to_accesses();
        let mut rest = self.1.to_accesses();
        list.append(&mut rest);
        list
    }

    proof fn lemma_holds(&self, layout: Set<TypeKey>) {
        self.0.lemma_holds(layout);
        self.1.lemma_holds(layout);
        lemma_all_hold_concat(self.0.accesses(), self.1.accesses(), layout);
    }
}

impl<A: QueryItem, B: QueryItem, D: QueryItem> QueryItem for (A, B, D) {
    open spec fn accesses(&self) -> Seq<Access> {
        self.0.accesses() + self.1.accesses() + self.2.accesses()
    }

    fn to_accesses(&self) -> (list: Vec<Access>) {
        let mut list = self.0.to_accesses();
        let mut second = self.1.to_accesses();
        let mut third = self.2.to_accesses();
        list.append(&mut second);
        list.append(&mut third);
        list
    }

    proof fn lemma_holds(&self, layout: Set<TypeKey>) {
        self.0.lemma_holds(layout);
        self.1.lemma_holds(layout);
        self.2.lemma_holds(layout);
        lemma_all_hold_concat(self.0.accesses(), self.1.accesses(), layout);
        lemma_all_hold_concat(self.0.accesses() + self.1.accesses(), self.2.accesses(), layout);
    }
}

/// Whether the accessors for `items` can be handed out one after the other,
/// each on the columns as the earlier ones left them.
pub open spec fn lendable_all<C: Component>(columns: Seq<Column<C>>, items: Seq<Access>) -> bool
    decreases items.len(),
{
    items.len() == 0 || {
        &&& lendable_all(columns, items.drop_last())
        &&& lendable(lend_all(columns, items.drop_last()), items.last().key(), items.last().exclusive())
    }
}

/// The columns once the accessors for `items` are out.
pub open spec fn lend_all<C: Component>(
    columns: Seq<Column<C>>,
    items: Seq<Access>,
) -> Seq<Column<C>>
    decreases items.len(),
{
    if items.len() == 0 {
        columns
    } else {
        lend(lend_all(columns, items.drop_last()), items.last().key(), items.last().exclusive())
    }
}

/// Whether the accessors for `items` can come back, the last one first.
pub open spec fn returnable_all<C: Component>(columns: Seq<Column<C>>, items: Seq<Access>) -> bool
    decreases items.len(),
{
    items.len() == 0 || {
        &&& returnable(columns, items.last().key(), items.last().exclusive())
        &&& returnable_all(
            give_back(columns, items.last().key(), items.last().exclusive()),
            items.drop_last(),
        )
    }
}

/// The columns once the accessors for `items` have come back, the last one
/// first.
pub open spec fn give_back_all<C: Component>(columns: Seq<Column<C>>, items: Seq<Access>) -> Seq<
    Column<C>,
>
    decreases items.len(),
{
    if items.len() == 0 {
        columns
    } else {
        give_back_all(
            give_back(columns, items.last().key(), items.last().exclusive()),
            items.drop_last(),
        )
    }
}

/// The length of the longest column among those that `items` ask for; 0
/// where none of them exists.
pub open spec fn longest<C: Component>(columns: Seq<Column<C>>, items: Seq<Access>) -> nat
    decreases items.len(),
{
    if items.len() == 0 {
        0
    } else {
        let rest = longest(columns, items.drop_last());
        let key = items.last().key();
        let here = if holds(columns, key) {
            columns[place(columns, key)]@.len()
        } else {
            0
        };
        if here > rest {
            here
        } else {
            rest
        }
    }
}

/// Accessors that can all be handed out can be handed out up to any point.
pub proof fn lemma_lendable_prefix<C: Component>(
    columns: Seq<Column<C>>,
    items: Seq<Access>,
    n: int,
)
    requires
        lendable_all(columns, items),
        0 <= n <= items.len(),
    ensures
        lendable_all(columns, items.take(n)),
    decreases items.len() - n,
{
    if n == items.len() {
        assert(items.take(n) =~= items);
    } else {
        assert(items.drop_last() =~= items.take(items.len() - 1));
        lemma_lendable_prefix(columns, items.drop_last(), n);
        assert(items.drop_last().take(n) =~= items.take(n));
    }
}

/// Handing out accessors changes neither the types nor the values held.
pub proof fn lemma_lend_all_same_values<C: Component>(columns: Seq<Column<C>>, items: Seq<Access>)
    ensures
        same_values(lend_all(columns, items), columns),
    decreases items.len(),
{
    if items.len() > 0 {
        lemma_lend_all_same_values(columns, items.drop_last());
        lemma_lend_same_values(
            lend_all(columns, items.drop_last()),
            items.last().key(),
            items.last().exclusive(),
        );
    }
}

/// The accessors that a query took can all come back, and the columns are
/// then as they were before the query.
pub proof fn lemma_resolve_release<C: Component>(columns: Seq<Column<C>>, items: Seq<Access>)
    requires
        distinct_columns(columns),
        lendable_all(columns, items),
    ensures
        returnable_all(lend_all(columns, items), items),
        give_back_all(lend_all(columns, items), items) == columns,
    decreases items.len(),
{
    if items.len() > 0 {
        let rest = items.drop_last();
        let last = items.last();
        let mid = lend_all(columns, rest);
        lemma_lend_all_same_values(columns, rest);
        assert(distinct_columns(mid)) by {
            assert forall|i: int, j: int|
                0 <= i < mid.len() && 0 <= j < mid.len() && i != j implies (#[trigger] mid[i]).key() != (
            #[trigger] mid[j]).key() by {
                assert(columns[i].key() != columns[j].key());
            }
        }
        lemma_lend_give_back(mid, last.key(), last.exclusive());
        lemma_resolve_release(columns, rest);
    }
}

/// One row that a query yields: the number of the archetype and the row of
/// its columns.
#[derive(Clone, Copy, Debug, PartialEq, Eq, Structural)]
pub struct QueryRow {
    pub archetype: usize,
    pub index: usize,
}

/// The accessors that a query holds in one archetype: the number of the
/// archetype, and the length of the longest column that they reach.
#[derive(Clone, Copy, Debug, PartialEq, Eq, Structural)]
pub struct ColumnsAccessor {
    pub archetype: usize,
    pub size: usize,
}

impl ColumnsAccessor {
    /// Takes one accessor per item of `items` in `archetype`, which is the
    /// archetype number `number` of its world. An item whose column the
    /// archetype lacks takes nothing.
    pub fn resolve<C: Component>(
        archetype: &mut Archetype<C>,
        number: usize,
        items: &Vec<Access>,
    ) -> (accessor: ColumnsAccessor)
        requires
            old(archetype).wf(),
            lendable_all(old(archetype).columns(), items@),
        ensures
            final(archetype).wf(),
            final(archetype).same_contents(*old(archetype)),
            final(archetype).columns() == lend_all(old(archetype).columns(), items@),
            accessor.archetype == number,
            accessor.size == longest(old(archetype).columns(), items@),
    {
        Self::try_resolve(&mut *archetype, number, items).unwrap()
    }

    /// Takes one accessor per item of `items` in `archetype`, as `resolve`
    /// does, unless one of them cannot be handed out: the archetype is then
    /// left as it was and nothing is returned.
    pub fn try_resolve<C: Component>(
        archetype: &mut Archetype<C>,
        number: usize,
        items: &Vec<Access>,
    ) -> (accessor: Option<ColumnsAccessor>)
        requires
            old(archetype).wf(),
        ensures
            final(archetype).wf(),
            final(archetype).same_contents(*old(archetype)),
            accessor is Some == lendable_all(old(archetype).columns(), items@),
            accessor is Some ==> {
                &&& final(archetype).columns() == lend_all(old(archetype).columns(), items@)
                &&& accessor.unwrap().archetype == number
                &&& accessor.unwrap().size == longest(old(archetype).columns(), items@)
            },
            accessor is None ==> final(archetype).columns() == old(archetype).columns(),
    {
        let ghost pre = *archetype;
        let mut size: usize = 0;
        let mut i: usize = 0;
        while i < items.len()
            invariant
                pre == *old(archetype),
                pre.wf(),
                lendable_all(pre.columns(), items@.take(i as int)),
                i <= items.len(),
                archetype.wf(),
                archetype.same_contents(pre),
                archetype.columns() == lend_all(pre.columns(), items@.take(i as int)),
                size == longest(pre.columns(), items@.take(i as int)),
            decreases items.len() - i,
        {
            let ghost shorter = items@.take(i as int);
            let ghost longer = items@.take(i as int + 1);
            let key = items[i].type_key();
            let exclusive = items[i].is_exclusive();
            proof {
                assert(longer.drop_last() =~= shorter);
                assert(longer.last() == items@[i as int]);
            }
            if !archetype.can_lend(key, exclusive) {
                proof {
                    assert(!lendable_all(pre.columns(), longer));
                    if lendable_all(pre.columns(), items@) {
                        lemma_lendable_prefix(pre.columns(), items@, i as int + 1);
                    }
                    lemma_resolve_release(pre.columns(), shorter);
                }
                Self::release_prefix(&mut *archetype, items, i);
                return None;
            }
            let ghost here = pre.values(key).len();
            let guard = archetype.acquire(key, exclusive);
            proof {
                assert(guard is Some == pre.has_column(key));
                if pre.has_column(key) {
                    assert(guard.unwrap().len == here);
                }
                assert(longest(pre.columns(), longer) == if here > longest(pre.columns(), shorter) {
                    here
                } else {
                    longest(pre.columns(), shorter)
                });
            }
            match guard {
                Some(guard) => {
                    if guard.len > size {
                        size = guard.len;
                    }
                },
                None => {},
            }
            i += 1;
        }
        proof {
            assert(items@.take(i as int) =~= items@);
        }
        Some(ColumnsAccessor { archetype: number, size })
    }

    /// Gives back the accessors of the first `n` items of `items`, the last
    /// of them first.
    pub(crate) fn release_prefix<C: Component>(
        archetype: &mut Archetype<C>,
        items: &Vec<Access>,
        n: usize,
    )
        requires
            old(archetype).wf(),
            n <= items@.len(),
            returnable_all(old(archetype).columns(), items@.take(n as int)),
        ensures
            final(archetype).wf(),
            final(archetype).same_contents(*old(archetype)),
            final(archetype).columns() == give_back_all(old(archetype).columns(), items@.take(n as int)),
    {
        let ghost pre = *archetype;
        let mut i: usize = n;
        while i > 0
            invariant
                i <= n <= items@.len(),
                archetype.wf(),
                archetype.same_contents(pre),
                returnable_all(archetype.columns(), items@.take(i as int)),
                give_back_all(archetype.columns(), items@.take(i as int)) == give_back_all(
                    pre.columns(),
                    items@.take(n as int),
                ),
            decreases i,
        {
            let ghost longer = items@.take(i as int);
            i -= 1;
            proof {
                assert(longer.drop_last() =~= items@.take(i as int));
                assert(longer.last() == items@[i as int]);
            }
            archetype.relinquish(items[i].type_key(), items[i].is_exclusive());
        }
        proof {
            assert(items@.take(0) =~= Seq::<Access>::empty());
        }
    }

    /// Gives back the accessors that `resolve` took for `items`, the last
    /// one first.
    pub fn release<C: Component>(self, archetype: &mut Archetype<C>, items: &Vec<Access>)
        requires
            old(archetype).wf(),
            returnable_all(old(archetype).columns(), items@),
        ensures
            final(archetype).wf(),
            final(archetype).same_contents(*old(archetype)),
            final(archetype).columns() == give_back_all(old(archetype).columns(), items@),
    {
        proof {
            assert(items@.take(items@.len() as int) =~= items@);
        }
        Self::release_prefix(&mut *archetype, items, items.len())
    }

    /// The length of the longest column that the accessors reach.
    pub fn size(&self) -> (size: usize)
        ensures
            size == self.size,
    {
        self.size
    }

    /// The value that `item` reaches in row `index` of `archetype`, or
    /// nothing where the archetype lacks the column or the column is
    /// shorter.
    pub fn get<'a, C: Component>(
        &self,
        archetype: &'a Archetype<C>,
        item: &Access,
        index: usize,
    ) -> (value: Option<&'a C>)
        requires
            archetype.wf(),
        ensures
            value == (if archetype.has_column(item.key()) && index < archetype.values(item.key()).len() {
                Some(&archetype.values(item.key())[index as int])
            } else {
                None
            }),
    {
        archetype.read(item.type_key(), index)
    }
}

/// The rows that `accessor` reaches, from row `from` on, in ascending order.
pub open spec fn rows_of(accessor: ColumnsAccessor, from: int) -> Seq<QueryRow> {
    Seq::new(
        if 0 <= from < accessor.size {
            (accessor.size - from) as nat
        } else {
            0
        },
        |i: int| QueryRow { archetype: accessor.archetype, index: (from + i) as usize },
    )
}

/// The rows that the first `n` of `accessors` reach: those of the last
/// accessor first, those of the first one last.
pub open spec fn rows_before(accessors: Seq<ColumnsAccessor>, n: nat) -> Seq<QueryRow>
    decreases n,
{
    if n == 0 {
        Seq::empty()
    } else {
        rows_of(accessors[n - 1], 0) + rows_before(accessors, (n - 1) as nat)
    }
}

/// The accessors that a query for `items` under `predicate` takes in the
/// first `n` of `archetypes`: one for each archetype that it takes in, in
/// the order of the archetypes.
pub open spec fn matched<C: Component, P: QueryPredicate>(
    archetypes: Seq<Archetype<C>>,
    items: Seq<Access>,
    predicate: P,
    n: nat,
) -> Seq<ColumnsAccessor>
    decreases n,
{
    if n == 0 {
        Seq::empty()
    } else {
        let rest = matched(archetypes, items, predicate, (n - 1) as nat);
        if selects(items, predicate, archetypes[n - 1].layout_set()) {
            rest.push(
                ColumnsAccessor {
                    archetype: (n - 1) as usize,
                    size: longest(archetypes[n - 1].columns(), items) as usize,
                },
            )
        } else {
            rest
        }
    }
}

/// The accessors stand in the order of their archetypes, none twice.
pub open spec fn ascending(accessors: Seq<ColumnsAccessor>) -> bool {
    forall|i: int, j: int|
        0 <= i < j < accessors.len() ==> (#[trigger] accessors[i]).archetype < (
        #[trigger] accessors[j]).archetype
}

/// Whether one of `accessors` is for the archetype number `a`.
pub open spec fn reaches(accessors: Seq<ColumnsAccessor>, a: int) -> bool {
    exists|i: int| 0 <= i < accessors.len() && (#[trigger] accessors[i]).archetype == a
}

/// Whether `accessors`, taken for `items`, are out in `archetypes` and can
/// come back.
pub open spec fn held<C: Component>(
    accessors: Seq<ColumnsAccessor>,
    items: Seq<Access>,
    archetypes: Seq<Archetype<C>>,
) -> bool {
    forall|i: int|
        0 <= i < accessors.len() ==> {
            &&& (#[trigger] accessors[i]).archetype < archetypes.len()
            &&& returnable_all(archetypes[accessors[i].archetype as int].columns(), items)
        }
}

/// What resolving a query for `items` under `predicate` makes of the
/// archetypes `pre`: in each one that the query takes in, the accessors for
/// the items are out; the others are as they were. No value changes.
pub open spec fn resolved_from<C: Component, P: QueryPredicate>(
    post: Seq<Archetype<C>>,
    pre: Seq<Archetype<C>>,
    items: Seq<Access>,
    predicate: P,
) -> bool {
    &&& post.len() == pre.len()
    &&& forall|a: int|
        0 <= a < pre.len() ==> if selects(items, predicate, pre[a].layout_set()) {
            &&& (#[trigger] post[a]).same_contents(pre[a])
            &&& post[a].columns() == lend_all(pre[a].columns(), items)
        } else {
            post[a] == pre[a]
        }
}

/// What giving back `accessors`, taken for `items`, makes of the archetypes
/// `pre`: in each archetype that they reach the accessors are back; the
/// others are as they were. No value changes.
pub open spec fn released_from<C: Component>(
    post: Seq<Archetype<C>>,
    pre: Seq<Archetype<C>>,
    accessors: Seq<ColumnsAccessor>,
    items: Seq<Access>,
) -> bool {
    &&& post.len() == pre.len()
    &&& forall|a: int|
        0 <= a < pre.len() ==> if reaches(accessors, a) {
            &&& (#[trigger] post[a]).same_contents(pre[a])
            &&& post[a].columns() == give_back_all(pre[a].columns(), items)
        } else {
            post[a] == pre[a]
        }
}

/// A walk over the rows of the archetypes that match a list of accesses and
/// a predicate. The archetype created last comes first; within an
/// archetype the rows come in ascending order.
pub struct Query<P: QueryPredicate> {
    pub(crate) items: Vec<Access>,
    pub(crate) predicate: P,
    pub(crate) columns: Vec<ColumnsAccessor>,
    pub(crate) remaining: usize,
    pub(crate) current_index: usize,
}

impl<P: QueryPredicate> Query<P> {
    /// The accesses asked for.
    pub open(crate) spec fn items(&self) -> Seq<Access> {
        self.items@
    }

    /// The predicate asked for.
    pub open(crate) spec fn predicate(&self) -> P {
        self.predicate
    }

    /// The accessors held, one per archetype taken in.
    pub open(crate) spec fn accessors(&self) -> Seq<ColumnsAccessor> {
        self.columns@
    }

    /// The rows still to be yielded, in the order in which they will come.
    pub open(crate) spec fn pending(&self) -> Seq<QueryRow> {
        if self.remaining == 0 {
            Seq::empty()
        } else {
            rows_of(self.columns@[self.remaining - 1], self.current_index as int) + rows_before(
                self.columns@,
                (self.remaining - 1) as nat,
            )
        }
    }

    /// The invariant of a query: the accessors stand in the order of their
    /// archetypes, and the walk has not left them.
    pub open(crate) spec fn wf(&self) -> bool {
        &&& self.remaining <= self.columns@.len()
        &&& ascending(self.columns@)
    }

    /// Whether the query is one that was just resolved in `archetypes` for
    /// `items` under `predicate`: it holds one accessor for each archetype
    /// that it takes in, and every row of them is still to come.
    pub open spec fn starts<C: Component>(
        &self,
        archetypes: Seq<Archetype<C>>,
        items: Seq<Access>,
        predicate: P,
    ) -> bool {
        &&& self.wf()
        &&& self.items() == items
        &&& self.predicate() == predicate
        &&& self.accessors() == matched(archetypes, items, predicate, archetypes.len())
        &&& self.pending() == rows_before(self.accessors(), self.accessors().len())
    }

    /// Whether the accessors of a query yet to be made can be handed out in
    /// every archetype of `world` that it takes in.
    pub open spec fn resolvable<C: Component>(
        world: &World<C>,
        items: Seq<Access>,
        predicate: P,
    ) -> bool {
        forall|a: int|
            0 <= a < world@.len() && selects(items, predicate, (#[trigger] world@[a]).layout_set())
                ==> lendable_all(world@[a].columns(), items)
    }

    /// Whether the accessors of the query are out in `world` and can come
    /// back.
    pub open spec fn held_in<C: Component>(&self, world: &World<C>) -> bool {
        held(self.accessors(), self.items(), world@)
    }

    /// The accesses asked for, in the order in which `get` and `set` number
    /// them.
    pub fn requested(&self) -> (items: &Vec<Access>)
        ensures
            items@ == self.items(),
    {
        &self.items
    }

    /// Whether a query for `items` under `predicate` takes in an archetype
    /// of `layout`.
    pub fn matches(items: &Vec<Access>, predicate: &P, layout: &Layout) -> (matched: bool)
        ensures
            matched == selects(items@, *predicate, layout@),
    {
        items.matches(layout) && predicate.matches(layout)
    }

    /// Resolves a query for `items` under `predicate` in `world`: in every
    /// archetype that the query takes in, one accessor per item is handed
    /// out. The values of the world stay as they are.
    pub fn new<C: Component, I: QueryItem>(world: &mut World<C>, items: I, predicate: P) -> (query:
        Query<P>)
        requires
            old(world).wf(),
            Self::resolvable(old(world), items.accesses(), predicate),
        ensures
            final(world).wf(),
            resolved_from(final(world)@, old(world)@, items.accesses(), predicate),
            query.starts(old(world)@, items.accesses(), predicate),
    {
        Self::try_new(&mut *world, items, predicate).unwrap()
    }

    /// The next row, or nothing once every row has been yielded. An
    /// archetype is exhausted when the walk reaches the length of the
    /// longest column that the accessors reach in it.
    pub fn next(&mut self) -> (row: Option<QueryRow>)
        requires
            old(self).wf(),
        ensures
            final(self).wf(),
            final(self).items() == old(self).items(),
            final(self).predicate() == old(self).predicate(),
            final(self).accessors() == old(self).accessors(),
            match row {
                Some(row) => {
                    &&& old(self).pending().len() > 0
                    &&& row == old(self).pending()[0]
                    &&& final(self).pending() == old(self).pending().skip(1)
                },
                None => {
                    &&& old(self).pending().len() == 0
                    &&& final(self).pending().len() == 0
                },
            },
    {
        loop
            invariant
                self.wf(),
                self.items == old(self).items,
                self.predicate == old(self).predicate,
                self.columns == old(self).columns,
                self.pending() == old(self).pending(),
            decreases self.remaining,
        {
            if self.remaining == 0 {
                return None;
            }
            let accessor = self.columns[self.remaining - 1];
            if self.current_index >= accessor.size() {
                assert(rows_of(accessor, self.current_index as int) =~= Seq::<QueryRow>::empty());
                assert(self.pending() =~= rows_before(self.columns@, (self.remaining - 1) as nat));
                self.remaining -= 1;
                self.current_index = 0;
                assert(self.pending() =~= rows_before(self.columns@, self.remaining as nat));
            } else {
                let index = self.current_index;
                let ghost before = self.pending();
                let ghost rest = rows_before(self.columns@, (self.remaining - 1) as nat);
                self.current_index += 1;
                proof {
                    let here = rows_of(accessor, index as int);
                    let then = rows_of(accessor, index as int + 1);
                    assert(here.len() > 0);
                    assert(then =~= here.skip(1));
                    assert(before == here + rest);
                    assert((here + rest).skip(1) =~= here.skip(1) + rest);
                    assert(self.pending() == then + rest);
                    assert(before[0] == here[0]);
                }
                return Some(QueryRow { archetype: accessor.archetype, index });
            }
        }
    }

    /// The value that the item number `item` reaches in `row`, or nothing
    /// where the archetype lacks the column or the column is shorter.
    pub fn get<'a, C: Component>(&self, world: &'a World<C>, row: QueryRow, item: usize) -> (value:
        Option<&'a C>)
        requires
            world.wf(),
            row.archetype < world@.len(),
            item < self.items().len(),
        ensures
            value == ({
                let archetype = world@[row.archetype as int];
                let key = self.items()[item as int].key();
                if archetype.has_column(key) && row.index < archetype.values(key).len() {
                    Some(&archetype.values(key)[row.index as int])
                } else {
                    None
                }
            }),
    {
        world.archetypes[row.archetype].read(self.items[item].type_key(), row.index)
    }

    /// Replaces the value that the item number `item` reaches in `row`. The
    /// item must be a writing one whose accessor is out.
    pub fn set<C: Component>(&self, world: &mut World<C>, row: QueryRow, item: usize, value: C)
        requires
            old(world).wf(),
            row.archetype < old(world)@.len(),
            item < self.items().len(),
            self.items()[item as int].exclusive(),
            value.type_key() == self.items()[item as int].key(),
            old(world)@[row.archetype as int].has_column(value.type_key()),
            old(world)@[row.archetype as int].columns()[old(world)@[row.archetype as int].column_index(
                value.type_key(),
            )].writer(),
            row.index < old(world)@[row.archetype as int].values(value.type_key()).len(),
        ensures
            final(world).wf(),
            final(world)@.len() == old(world)@.len(),
            forall|b: int|
                0 <= b < old(world)@.len() && b != row.archetype ==> #[trigger] final(world)@[b] == old(
                    world,
                )@[b],
            final(world)@[row.archetype as int].written_from(
                old(world)@[row.archetype as int],
                value.type_key(),
                row.index as int,
                value,
            ),
    {
        let key = self.items[item].type_key();
        world.archetypes[row.archetype].write(key, row.index, value);
    }

    /// Gives back `accessors`, which were taken in `world` for `items`.
    pub(crate) fn release_all<C: Component>(
        world: &mut World<C>,
        accessors: &Vec<ColumnsAccessor>,
        items: &Vec<Access>,
    )
        requires
            old(world).wf(),
            ascending(accessors@),
            held(accessors@, items@, old(world)@),
        ensures
            final(world).wf(),
            released_from(final(world)@, old(world)@, accessors@, items@),
    {
        let ghost pre = *world;
        let mut i: usize = 0;
        while i < accessors.len()
            invariant
                pre.wf(),
                ascending(accessors@),
                held(accessors@, items@, pre@),
                world@.len() == pre@.len(),
                i <= accessors.len(),
                forall|b: int| 0 <= b < world@.len() ==> (#[trigger] world@[b]).wf() && world@[b].populated(),
                released_from(world@, pre@, accessors@.take(i as int), items@),
            decreases accessors.len() - i,
        {
            let accessor = accessors[i];
            let ghost before = *world;
            let ghost done = accessors@.take(i as int);
            proof {
                assert(accessors@[i as int].archetype < pre@.len());
                assert(!reaches(done, accessor.archetype as int)) by {
                    if reaches(done, accessor.archetype as int) {
                        let k = choose|k: int|
                            0 <= k < done.len() && (#[trigger] done[k]).archetype == accessor.archetype;
                        assert(accessors@[k].archetype < accessors@[i as int].archetype);
                    }
                }
                assert(world@[accessor.archetype as int] == pre@[accessor.archetype as int]);
            }
            accessor.release(&mut world.archetypes[accessor.archetype], items);
            proof {
                let next = accessors@.take(i as int + 1);
                assert forall|a: int| 0 <= a < pre@.len() implies if reaches(next, a) {
                    &&& (#[trigger] world@[a]).same_contents(pre@[a])
                    &&& world@[a].columns() == give_back_all(pre@[a].columns(), items@)
                } else {
                    world@[a] == pre@[a]
                } by {
                    if a == accessor.archetype {
                        assert(next[i as int].archetype == a);
                    } else {
                        assert(world@[a] == before@[a]);
                        if reaches(next, a) {
                            let k = choose|k: int|
                                0 <= k < next.len() && (#[trigger] next[k]).archetype == a;
                            assert(done[k].archetype == a);
                        }
                        if reaches(done, a) {
                            let k = choose|k: int|
                                0 <= k < done.len() && (#[trigger] done[k]).archetype == a;
                            assert(next[k].archetype == a);
                        }
                    }
                }
            }
            i += 1;
        }
        proof {
            assert(accessors@.take(i as int) =~= accessors@);
        }
    }

    /// Gives back every accessor that the query holds in `world`.
    pub fn release<C: Component>(self, world: &mut World<C>)
        requires
            old(world).wf(),
            self.wf(),
            self.held_in(old(world)),
        ensures
            final(world).wf(),
            released_from(final(world)@, old(world)@, self.accessors(), self.items()),
    {
        Self::release_all(world, &self.columns, &self.items)
    }

    /// Resolves a query as `new` does, unless an accessor cannot be handed
    /// out in some archetype that the query takes in: every accessor that
    /// was taken is then given back, and nothing is returned.
    pub fn try_new<C: Component, I: QueryItem>(world: &mut World<C>, items: I, predicate: P) -> (query:
        Option<Query<P>>)
        requires
            old(world).wf(),
        ensures
            final(world).wf(),
            final(world)@.len() == old(world)@.len(),
            query is Some == Self::resolvable(old(world), items.accesses(), predicate),
            query is Some ==> {
                &&& resolved_from(final(world)@, old(world)@, items.accesses(), predicate)
                &&& query.unwrap().starts(old(world)@, items.accesses(), predicate)
            },
            query is None ==> forall|a: int|
                0 <= a < old(world)@.len() ==> {
                    &&& (#[trigger] final(world)@[a]).same_contents(old(world)@[a])
                    &&& final(world)@[a].columns() == old(world)@[a].columns()
                },
    {
        let list = items.to_accesses();
        let ghost pre = *world;
        let mut columns: Vec<ColumnsAccessor> = Vec::new();
        let n = world.archetypes.len();
        let mut a: usize = 0;
        while a < n
            invariant
                list@ == items.accesses(),
                pre == *old(world),
                pre.wf(),
                n == pre@.len(),
                world@.len() == n,
                a <= n,
                forall|b: int| a <= b < n ==> #[trigger] world@[b] == pre@[b],
                forall|b: int|
                    0 <= b < a ==> if selects(list@, predicate, pre@[b].layout_set()) {
                        &&& (#[trigger] world@[b]).same_contents(pre@[b])
                        &&& world@[b].columns() == lend_all(pre@[b].columns(), list@)
                    } else {
                        world@[b] == pre@[b]
                    },
                forall|b: int|
                    0 <= b < a && selects(list@, predicate, (#[trigger] pre@[b]).layout_set())
                        ==> lendable_all(pre@[b].columns(), list@) && reaches(columns@, b),
                forall|b: int| 0 <= b < n ==> (#[trigger] world@[b]).wf() && world@[b].populated(),
                columns@ == matched(pre@, list@, predicate, a as nat),
                forall|i: int|
                    0 <= i < columns@.len() ==> (#[trigger] columns@[i]).archetype < a && selects(
                        list@,
                        predicate,
                        pre@[columns@[i].archetype as int].layout_set(),
                    ),
                ascending(columns@),
            decreases n - a,
        {
            assert(world@[a as int] == pre@[a as int]);
            if Self::matches(&list, &predicate, world.archetypes[a].layout()) {
                let ghost taken = columns@;
                match ColumnsAccessor::try_resolve(&mut world.archetypes[a], a, &list) {
                    Some(accessor) => {
                        columns.push(accessor);
                        proof {
                            assert(columns@[taken.len() as int].archetype == a);
                            assert forall|b: int|
                                0 <= b < a && selects(
                                    list@,
                                    predicate,
                                    (#[trigger] pre@[b]).layout_set(),
                                ) implies reaches(columns@, b) by {
                                assert(reaches(taken, b));
                                let k = choose|k: int|
                                    0 <= k < taken.len() && (#[trigger] taken[k]).archetype == b;
                                assert(columns@[k].archetype == b);
                            }
                        }
                    },
                    None => {
                        let ghost mid = *world;
                        proof {
                            assert(!Self::resolvable(&pre, list@, predicate));
                            assert forall|i: int| 0 <= i < columns@.len() implies {
                                &&& (#[trigger] columns@[i]).archetype < mid@.len()
                                &&& returnable_all(mid@[columns@[i].archetype as int].columns(), list@)
                            } by {
                                let b = columns@[i].archetype as int;
                                assert(mid@[b].same_contents(pre@[b]));
                                assert(pre@[b].wf());
                                lemma_resolve_release(pre@[b].columns(), list@);
                            }
                        }
                        Self::release_all(world, &columns, &list);
                        proof {
                            assert forall|b: int| 0 <= b < pre@.len() implies {
                                &&& (#[trigger] world@[b]).same_contents(pre@[b])
                                &&& world@[b].columns() == pre@[b].columns()
                            } by {
                                if reaches(columns@, b) {
                                    let k = choose|k: int|
                                        0 <= k < columns@.len() && (#[trigger] columns@[k]).archetype == b;
                                    assert(mid@[b].same_contents(pre@[b]));
                                    assert(pre@[b].wf());
                                    lemma_resolve_release(pre@[b].columns(), list@);
                                } else {
                                    assert(world@[b] == mid@[b]);
                                    if b < a {
                                        assert(mid@[b].same_contents(pre@[b]));
                                    }
                                }
                            }
                        }
                        return None;
                    },
                }
            }
            a += 1;
        }
        let remaining = columns.len();
        Some(Query { items: list, predicate, columns, remaining, current_index: 0 })
    }
}

impl<C: Component, I: QueryItem, P: QueryPredicate> Provider<(I, P), Query<P>> for World<C> {
    /// A world serves the request for a query where it is well formed and
    /// the accessors of the query can be handed out.
    open spec fn provides(&self, request: &(I, P)) -> bool {
        self.wf() && Query::<P>::resolvable(self, request.0.accesses(), request.1)
    }

    /// Resolves the query for the items and the predicate of `request`.
    fn provide(&mut self, request: (I, P)) -> (query: Query<P>)
        ensures
            final(self).wf(),
            resolved_from(final(self)@, old(self)@, request.0.accesses(), request.1),
            query.starts(old(self)@, request.0.accesses(), request.1),
    {
        Query::new(self, request.0, request.1)
    }
}

} // verus!
