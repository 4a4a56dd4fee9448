//! Laws that relate several operations of the library.

use vstd::prelude::*;
use crate::archetypes::Archetype;
use crate::column::{
    distinct_columns, holds, lemma_lend_same_values, lemma_same_values_holds, lend, lendable, place,
    same_values, Column,
};
use crate::component::Component;
use crate::layout::TypeKey;
use crate::prototype::Prototype;
use crate::query::{longest, matched, Access, QueryPredicate};
use crate::world::{Entity, World, MAX_ARCHETYPES};

verus! {

/// Where the archetypes before `t` do not have the layout and the
/// archetype `t` has it, `t` is the target of the layout.
pub proof fn lemma_target_is<C: Component>(world: World<C>, layout: Set<TypeKey>, from: int, t: int)
    requires
        0 <= from <= t <= world@.len(),
        forall|i: int| from <= i < t ==> (#[trigger] world@[i]).layout_set() != layout,
        t < world@.len() ==> world@[t].layout_set() == layout,
    ensures
        world.find_from(layout, from) == t,
    decreases t - from,
{
    if from < t {
        lemma_target_is(world, layout, from + 1, t);
    }
}

/// Two prototypes of the same layout, inserted one after the other, go to
/// the same archetype, and after each insertion every column of that
/// archetype holds exactly one value per live entity.
pub proof fn lemma_equal_layouts_share_archetype<C: Component>(
    before: World<C>,
    first: Prototype<C>,
    between: World<C>,
    second: Prototype<C>,
    after: World<C>,
)
    requires
        before.wf(),
        between.wf(),
        after.wf(),
        first@.dom() == second@.dom(),
        between.inserted(before, first),
        after.inserted(between, second),
    ensures
        ({
            let t = before.target(first@.dom());
            &&& between.target(second@.dom()) == t
            &&& t < between@.len()
            &&& between@.len() == after@.len()
            &&& after@[t].live_count() == between@[t].live_count() + 1
            &&& forall|j: int|
                0 <= j < between@[t].columns().len() ==> (#[trigger] between@[t].columns()[j])@.len()
                    == between@[t].live_count()
            &&& forall|j: int|
                0 <= j < after@[t].columns().len() ==> (#[trigger] after@[t].columns()[j])@.len()
                    == after@[t].live_count()
        }),
{
    let layout = first@.dom();
    let t = before.target(layout);
    before.lemma_find_from(layout, 0);
    assert forall|i: int| 0 <= i < t implies (#[trigger] between@[i]).layout_set() != layout by {
        assert(between@[i] == before@[i]);
    }
    lemma_target_is(between, layout, 0, t);
}

/// Among the first `n` rows of the table, the live ones are those that are
/// not among the `d` free rows below `n`.
pub proof fn lemma_live_prefix_len<C: Component>(archetype: Archetype<C>, n: nat, d: nat)
    requires
        archetype.wf(),
        n <= archetype.table().len(),
        d <= archetype.dead().len(),
        forall|k: int| 0 <= k < d ==> (#[trigger] archetype.dead()[k]) < n,
        forall|k: int| d <= k < archetype.dead().len() ==> (#[trigger] archetype.dead()[k]) >= n,
    ensures
        archetype.live_prefix(n).len() == n - d,
    decreases n,
{
    if n > 0 {
        let dead = archetype.dead();
        if archetype.is_dead(n - 1) {
            let k = choose|k: int| 0 <= k < dead.len() && #[trigger] dead[k] == n - 1;
            assert(k < d);
            if k < d - 1 {
                assert(dead[k] < dead[d - 1]);
            }
            assert(dead[d - 1] == n - 1);
            assert forall|i: int| 0 <= i < d - 1 implies (#[trigger] dead[i]) < n - 1 by {
                assert(dead[i] < dead[d - 1]);
            }
            lemma_live_prefix_len(archetype, (n - 1) as nat, (d - 1) as nat);
        } else {
            assert forall|i: int| 0 <= i < d implies (#[trigger] dead[i]) < n - 1 by {
                if dead[i] == n - 1 {
                    assert(archetype.is_dead(n - 1));
                }
            }
            lemma_live_prefix_len(archetype, (n - 1) as nat, d);
        }
    } else if d > 0 {
        assert(archetype.dead()[0] < n);
    }
}

/// The live entities of an archetype are as many as its table has rows
/// that are not free.
pub proof fn lemma_live_count<C: Component>(archetype: Archetype<C>)
    requires
        archetype.wf(),
    ensures
        archetype.live().len() == archetype.live_count(),
{
    lemma_live_prefix_len(archetype, archetype.table().len(), archetype.dead().len());
}

/// A world that holds `MAX_ARCHETYPES` archetypes takes no prototype of a
/// layout that none of them has: the next archetype would be one too many.
pub proof fn lemma_archetype_ceiling<C: Component>(world: World<C>, prototype: Prototype<C>)
    requires
        world@.len() == MAX_ARCHETYPES,
        forall|i: int| 0 <= i < world@.len() ==> (#[trigger] world@[i]).layout_set() != prototype@.dom(),
    ensures
        !world.insertable(&prototype),
{
    lemma_target_is(world, prototype@.dom(), 0, world@.len() as int);
}

/// While a read accessor to a column is out, the write accessor cannot be
/// handed out; while the write accessor is out, no accessor can.
pub proof fn lemma_accessors_conflict<C: Component>(columns: Seq<Column<C>>, key: TypeKey)
    requires
        distinct_columns(columns),
        holds(columns, key),
        forall|j: int| 0 <= j < columns.len() ==> (#[trigger] columns[j]).wf(),
    ensures
        lendable(columns, key, false) ==> !lendable(lend(columns, key, false), key, true),
        lendable(columns, key, true) ==> !lendable(lend(columns, key, true), key, false),
        lendable(columns, key, true) ==> !lendable(lend(columns, key, true), key, true),
{
    let j = place(columns, key);
    lemma_lend_same_values(columns, key, false);
    lemma_lend_same_values(columns, key, true);
    lemma_same_values_holds(lend(columns, key, false), columns, key);
    lemma_same_values_holds(lend(columns, key, true), columns, key);
}

/// Accessors to columns of two different types do not hinder each other:
/// one that can be handed out still can once the other is out.
pub proof fn lemma_disjoint_accessors<C: Component>(
    columns: Seq<Column<C>>,
    first: TypeKey,
    first_exclusive: bool,
    second: TypeKey,
    second_exclusive: bool,
)
    requires
        distinct_columns(columns),
        first != second,
        lendable(columns, first, first_exclusive),
        lendable(columns, second, second_exclusive),
    ensures
        lendable(lend(columns, first, first_exclusive), second, second_exclusive),
{
    lemma_lend_same_values(columns, first, first_exclusive);
    lemma_same_values_holds(lend(columns, first, first_exclusive), columns, second);
}

/// Two calls that list the live entities of the same world give the same
/// list: listing changes nothing.
pub proof fn lemma_entities_repeatable<C: Component>(
    world: World<C>,
    first: Seq<Entity>,
    second: Seq<Entity>,
)
    requires
        first == world.all_entities(),
        second == world.all_entities(),
    ensures
        first == second,
{
}

/// The longest column that a list of accesses reaches depends on the types
/// and values held only, not on the accessors that are out.
pub proof fn lemma_longest_same_values<C: Component>(
    a: Seq<Column<C>>,
    b: Seq<Column<C>>,
    items: Seq<Access>,
)
    requires
        same_values(a, b),
        distinct_columns(b),
    ensures
        longest(a, items) == longest(b, items),
    decreases items.len(),
{
    if items.len() > 0 {
        lemma_longest_same_values(a, b, items.drop_last());
        lemma_same_values_holds(a, b, items.last().key());
    }
}

/// Two worlds that differ only in the accessors that are out give a query
/// the same accessors, and so the same rows: resolving a query changes
/// nothing that a later query sees.
pub proof fn lemma_query_repeatable<C: Component, P: QueryPredicate>(
    first: Seq<Archetype<C>>,
    second: Seq<Archetype<C>>,
    items: Seq<Access>,
    predicate: P,
    n: nat,
)
    requires
        n <= first.len(),
        first.len() == second.len(),
        forall|a: int|
            0 <= a < first.len() ==> {
                &&& (#[trigger] first[a]).wf()
                &&& second[a].same_rows(first[a])
                &&& same_values(second[a].columns(), first[a].columns())
            },
    ensures
        matched(second, items, predicate, n) == matched(first, items, predicate, n),
    decreases n,
{
    if n > 0 {
        lemma_query_repeatable(first, second, items, predicate, (n - 1) as nat);
        assert(first[n - 1].wf());
        lemma_longest_same_values(second[n - 1].columns(), first[n - 1].columns(), items);
    }
}

} // verus!
