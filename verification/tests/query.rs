use nano::component::{Scalar, KEY_U128, KEY_U32, KEY_U64, KEY_U8};
use nano::layout::Layout;
use nano::prototype::Prototype;
use nano::systems::Provider;
use nano::query::{
    Access, ColumnsAccessor, Query, QueryItem, QueryPredicate, QueryRow, With, Without,
};
use nano::world::World;

fn sample() -> World<Scalar> {
    let mut world = World::new();
    world.insert(Prototype::new().with(Scalar::U32(1)).with(Scalar::U64(2)).with(Scalar::U128(3)));
    world.insert(Prototype::new().with(Scalar::U32(4)).with(Scalar::U64(5)));
    world.insert(Prototype::new().with(Scalar::U32(6)));
    world.insert(Prototype::new().with(Scalar::U64(8)).with(Scalar::U32(7)));
    world
}

fn layout_of(keys: &[u64]) -> Layout {
    let mut layout = Layout::new();
    for key in keys {
        layout.insert(*key);
    }
    layout
}

fn rows<P: QueryPredicate>(query: &mut Query<P>) -> Vec<QueryRow> {
    let mut rows = Vec::new();
    while let Some(row) = query.next() {
        rows.push(row);
    }
    rows
}

#[test]
fn items_and_predicates_match_layouts() {
    let layout = layout_of(&[32, 64]);
    assert!(Access::Ref(32).matches(&layout));
    assert!(Access::Mut(64).matches(&layout));
    assert!(!Access::Ref(128).matches(&layout));
    assert!(!Access::Mut(128).matches(&layout));
    assert!(Access::OptionRef(128).matches(&layout));
    assert!(Access::OptionMut(128).matches(&layout));
    assert!(With(32).matches(&layout));
    assert!(!With(128).matches(&layout));
    assert!(Without(128).matches(&layout));
    assert!(!Without(32).matches(&layout));
    assert!(().matches(&layout));
    assert!((With(32), Without(128)).matches(&layout));
    assert!(!(With(32), Without(64)).matches(&layout));
    assert!((With(32), With(64), Without(8)).matches(&layout));
    assert!(!(With(32), With(64), With(8)).matches(&layout));
    assert!((With(32), (), With(64), Without(8)).matches(&layout));
    assert!((With(32), (), With(64), Without(8), Without(16)).matches(&layout));
    assert!(!(With(32), (), With(64), Without(8), Without(16), With(128)).matches(&layout));
    assert!((With(32), (), With(64), Without(8), (), (), Without(128)).matches(&layout));
    assert!(!(With(32), (), With(64), Without(8), (), (), Without(128), Without(32)).matches(&layout));
}

#[test]
fn a_query_matches_when_items_and_predicate_do() {
    let layout = layout_of(&[32, 64]);
    let items = vec![Access::Ref(32), Access::OptionRef(128)];
    assert!(Query::matches(&items, &(), &layout));
    assert!(Query::matches(&items, &With(64), &layout));
    assert!(!Query::matches(&items, &Without(64), &layout));
    assert!(!Query::matches(&vec![Access::Ref(128)], &(), &layout));
}

#[test]
fn required_items_select_the_archetypes_that_have_them() {
    let mut world = sample();
    let items = vec![Access::Ref(KEY_U32), Access::Mut(KEY_U64)];
    let mut query = Query::new(&mut world, items, ());
    let rows = rows(&mut query);
    assert_eq!(
        rows,
        vec![
            QueryRow { archetype: 1, index: 0 },
            QueryRow { archetype: 1, index: 1 },
            QueryRow { archetype: 0, index: 0 },
        ]
    );
    assert_eq!(query.next(), None);
    query.release(&mut world);
    assert!(world.archetypes()[0].is_unborrowed());
    assert!(world.archetypes()[1].is_unborrowed());
}

#[test]
fn optional_items_are_absent_where_the_archetype_lacks_them() {
    let mut world = sample();
    let items = vec![Access::Ref(KEY_U32), Access::OptionRef(KEY_U128)];
    let mut query = Query::new(&mut world, items, With(KEY_U64));
    let rows = rows(&mut query);
    assert_eq!(rows.len(), 3);
    for row in rows {
        let first = query.get(&world, row, 0);
        let second = query.get(&world, row, 1);
        assert!(first.is_some());
        if row.archetype == 0 {
            assert_eq!(second, Some(&Scalar::U128(3)));
        } else {
            assert_eq!(row.archetype, 1);
            assert_eq!(second, None);
        }
    }
    query.release(&mut world);
}

#[test]
fn optional_items_alone_select_every_archetype() {
    let mut world = sample();
    let items = vec![Access::Ref(KEY_U32), Access::OptionRef(KEY_U128)];
    let mut query = Query::new(&mut world, items, ());
    let rows = rows(&mut query);
    assert_eq!(
        rows,
        vec![
            QueryRow { archetype: 2, index: 0 },
            QueryRow { archetype: 1, index: 0 },
            QueryRow { archetype: 1, index: 1 },
            QueryRow { archetype: 0, index: 0 },
        ]
    );
    query.release(&mut world);
}

#[test]
fn without_leaves_archetypes_out() {
    let mut world = sample();
    let mut query = Query::new(&mut world, vec![Access::Ref(KEY_U32)], Without(KEY_U64));
    assert_eq!(rows(&mut query), vec![QueryRow { archetype: 2, index: 0 }]);
    assert_eq!(query.get(&world, QueryRow { archetype: 2, index: 0 }, 0), Some(&Scalar::U32(6)));
    query.release(&mut world);
}

#[test]
fn a_prototype_comes_back_through_a_query() {
    let mut world: World<Scalar> = World::new();
    world.insert(Prototype::new().with(Scalar::U32(1)).with(Scalar::U64(2)));
    let items = vec![Access::Ref(KEY_U32), Access::Ref(KEY_U64)];
    let mut query = Query::new(&mut world, items, ());
    let row = query.next().unwrap();
    assert_eq!(row, QueryRow { archetype: 0, index: 0 });
    assert_eq!(query.get(&world, row, 0), Some(&Scalar::U32(1)));
    assert_eq!(query.get(&world, row, 1), Some(&Scalar::U64(2)));
    assert_eq!(query.next(), None);
    query.release(&mut world);
}

#[test]
fn writing_items_change_the_values() {
    let mut world = sample();
    let items = vec![Access::Ref(KEY_U32), Access::Mut(KEY_U64)];
    let mut query = Query::new(&mut world, items, ());
    assert_eq!(query.requested(), &vec![Access::Ref(32), Access::Mut(64)]);
    assert!(query.requested()[1].is_exclusive());
    assert!(!query.requested()[1].is_optional());
    assert_eq!(query.requested()[1].type_key(), KEY_U64);
    while let Some(row) = query.next() {
        assert!(world.archetypes()[row.archetype].can_release(KEY_U64, true));
        let old = match query.get(&world, row, 1) {
            Some(Scalar::U64(value)) => *value,
            _ => panic!("a 64-bit value is stored there"),
        };
        query.set(&mut world, row, 1, Scalar::U64(old + 1));
    }
    query.release(&mut world);
    assert_eq!(world.archetypes()[0].read(64, 0), Some(&Scalar::U64(3)));
    assert_eq!(world.archetypes()[1].read(64, 0), Some(&Scalar::U64(6)));
    assert_eq!(world.archetypes()[1].read(64, 1), Some(&Scalar::U64(9)));
    assert_eq!(world.archetypes()[1].read(32, 1), Some(&Scalar::U32(7)));
}

#[test]
fn a_query_twice_gives_the_same_rows() {
    let mut world = sample();
    let items = vec![Access::Ref(KEY_U32), Access::OptionRef(KEY_U64)];
    let mut first = Query::new(&mut world, items.clone(), ());
    let mut second = Query::new(&mut world, items, ());
    let first_rows = rows(&mut first);
    let second_rows = rows(&mut second);
    assert_eq!(first_rows, second_rows);
    for row in first_rows {
        assert_eq!(first.get(&world, row, 0), second.get(&world, row, 0));
        assert_eq!(first.get(&world, row, 1), second.get(&world, row, 1));
    }
    second.release(&mut world);
    first.release(&mut world);
    assert!(world.archetypes()[0].is_unborrowed());
    assert!(world.archetypes()[1].is_unborrowed());
    assert!(world.archetypes()[2].is_unborrowed());
}

#[test]
fn a_query_holds_its_accessors_until_released() {
    let mut world = sample();
    let items = vec![Access::Ref(KEY_U32), Access::Mut(KEY_U64)];
    let query = Query::new(&mut world, items, ());
    assert!(!world.archetypes()[0].can_lend(32, true));
    assert!(world.archetypes()[0].can_lend(32, false));
    assert!(!world.archetypes()[0].can_lend(64, false));
    assert!(world.archetypes()[0].can_lend(128, true));
    assert!(world.archetypes()[2].is_unborrowed());
    query.release(&mut world);
    assert!(world.archetypes()[0].can_lend(32, true));
    assert!(world.archetypes()[0].can_lend(64, true));
}

#[test]
fn resolve_measures_the_longest_column() {
    let mut world = sample();
    let items = vec![Access::OptionRef(KEY_U128), Access::Ref(KEY_U32)];
    let accessor = ColumnsAccessor::resolve(&mut world.archetypes_mut()[1], 1, &items);
    assert_eq!(accessor, ColumnsAccessor { archetype: 1, size: 2 });
    assert_eq!(accessor.size(), 2);
    assert_eq!(accessor.get(&world.archetypes()[1], &items[1], 1), Some(&Scalar::U32(7)));
    assert_eq!(accessor.get(&world.archetypes()[1], &items[0], 1), None);
    assert_eq!(accessor.get(&world.archetypes()[1], &items[1], 2), None);
    accessor.release(&mut world.archetypes_mut()[1], &items);
    assert!(world.archetypes()[1].is_unborrowed());
}

#[test]
fn optional_items_of_a_missing_type_reach_no_row() {
    let mut world = sample();
    let items = vec![Access::OptionRef(KEY_U8)];
    let mut query = Query::new(&mut world, items, ());
    assert_eq!(query.next(), None);
    query.release(&mut world);
}

#[test]
fn a_world_provides_queries() {
    let mut world = sample();
    let mut query: Query<Without> =
        world.provide((vec![Access::Ref(KEY_U64)], Without(KEY_U128)));
    assert_eq!(
        rows(&mut query),
        vec![QueryRow { archetype: 1, index: 0 }, QueryRow { archetype: 1, index: 1 }]
    );
    query.release(&mut world);
}

#[test]
fn try_new_refuses_a_read_and_a_write_of_one_type() {
    let mut world = sample();
    let items = vec![Access::Ref(KEY_U32), Access::Mut(KEY_U32)];
    assert!(Query::try_new(&mut world, items, ()).is_none());
    assert!(world.archetypes()[0].is_unborrowed());
    assert!(world.archetypes()[1].is_unborrowed());
    assert!(world.archetypes()[2].is_unborrowed());
}

#[test]
fn try_new_refuses_a_second_writer() {
    let mut world = sample();
    let first = Query::try_new(&mut world, vec![Access::Mut(KEY_U64)], With(KEY_U128));
    let first = first.unwrap();
    assert!(Query::try_new(&mut world, vec![Access::Ref(KEY_U64)], ()).is_none());
    assert!(Query::try_new(&mut world, vec![Access::Mut(KEY_U64)], ()).is_none());
    assert!(world.archetypes()[1].is_unborrowed());
    assert!(!world.archetypes()[0].is_unborrowed());
    assert!(world.archetypes()[0].can_release(KEY_U64, true));
    first.release(&mut world);
    assert!(world.archetypes()[0].is_unborrowed());
}

#[test]
fn try_new_accepts_disjoint_types() {
    let mut world = sample();
    let first = Query::try_new(&mut world, vec![Access::Ref(KEY_U32)], ()).unwrap();
    let mut second = Query::try_new(&mut world, vec![Access::Mut(KEY_U64)], ()).unwrap();
    assert_eq!(
        rows(&mut second),
        vec![
            QueryRow { archetype: 1, index: 0 },
            QueryRow { archetype: 1, index: 1 },
            QueryRow { archetype: 0, index: 0 },
        ]
    );
    second.release(&mut world);
    first.release(&mut world);
    assert!(world.archetypes()[0].is_unborrowed());
}

#[test]
fn try_resolve_leaves_the_archetype_as_it_was() {
    let mut world = sample();
    let items = vec![Access::Ref(KEY_U64), Access::Ref(KEY_U32), Access::Mut(KEY_U64)];
    assert_eq!(ColumnsAccessor::try_resolve(&mut world.archetypes_mut()[1], 1, &items), None);
    assert!(world.archetypes()[1].is_unborrowed());
    let items = vec![Access::Ref(KEY_U64), Access::Ref(KEY_U64)];
    let accessor = ColumnsAccessor::try_resolve(&mut world.archetypes_mut()[1], 1, &items);
    assert_eq!(accessor, Some(ColumnsAccessor { archetype: 1, size: 2 }));
    assert!(!world.archetypes()[1].can_lend(KEY_U64, true));
    assert!(!world.archetypes()[1].can_release(KEY_U64, true));
    assert!(world.archetypes()[1].can_release(KEY_U64, false));
    accessor.unwrap().release(&mut world.archetypes_mut()[1], &items);
    assert!(world.archetypes()[1].is_unborrowed());
}

#[test]
fn tuples_of_accesses_are_lists() {
    assert_eq!(Access::Ref(1).to_accesses(), vec![Access::Ref(1)]);
    assert_eq!(
        (Access::Ref(1), Access::OptionMut(2)).to_accesses(),
        vec![Access::Ref(1), Access::OptionMut(2)]
    );
    assert_eq!(
        (Access::Ref(1), (Access::Mut(2), Access::OptionRef(3)), vec![Access::Ref(4)]).to_accesses(),
        vec![Access::Ref(1), Access::Mut(2), Access::OptionRef(3), Access::Ref(4)]
    );
    let layout = layout_of(&[1, 2]);
    assert!((Access::Ref(1), Access::OptionMut(3)).matches(&layout));
    assert!(!(Access::Ref(1), Access::Mut(3)).matches(&layout));
    assert!(vec![Access::Ref(1), Access::Ref(2)].matches(&layout));
    assert!(!vec![Access::Ref(1), Access::Ref(3)].matches(&layout));
}

#[test]
fn a_query_takes_a_tuple_of_accesses() {
    let mut world = sample();
    let items = (Access::Ref(KEY_U32), Access::Mut(KEY_U64), Access::OptionRef(KEY_U128));
    let mut query = Query::new(&mut world, items, ());
    assert_eq!(
        query.requested(),
        &vec![Access::Ref(32), Access::Mut(64), Access::OptionRef(128)]
    );
    let row = query.next().unwrap();
    assert_eq!(row, QueryRow { archetype: 1, index: 0 });
    assert_eq!(query.get(&world, row, 0), Some(&Scalar::U32(4)));
    assert_eq!(query.get(&world, row, 1), Some(&Scalar::U64(5)));
    assert_eq!(query.get(&world, row, 2), None);
    query.release(&mut world);
}
