use nano::archetypes::{Archetype, ArchetypeEntity, ArchetypeEntry};
use nano::column::ColumnGuard;
use nano::component::Scalar;
use nano::prototype::Prototype;

fn pair(a: u32, b: u64) -> Prototype<Scalar> {
    Prototype::new().with(Scalar::U32(a)).with(Scalar::U64(b))
}

fn pair_archetype() -> Archetype<Scalar> {
    Archetype::new(pair(0, 0).layout())
}

#[test]
fn new_archetype_is_empty() {
    let archetype = pair_archetype();
    assert_eq!(archetype.len(), 0);
    assert_eq!(archetype.slots(), 0);
    assert!(archetype.entities().is_empty());
    assert!(archetype.layout().contains(32));
    assert!(archetype.layout().contains(64));
    assert_eq!(archetype.layout().len(), 2);
    assert_eq!(archetype.read(32, 0), None);
    assert!(archetype.is_unborrowed());
}

#[test]
fn insert_appends_rows_of_generation_zero() {
    let mut archetype = pair_archetype();
    archetype.insert(pair(1, 2));
    archetype.insert(pair(3, 4));
    archetype.insert(pair(5, 6));
    assert_eq!(archetype.len(), 3);
    assert_eq!(
        archetype.entities(),
        vec![
            ArchetypeEntity { index: 0, generation: 0 },
            ArchetypeEntity { index: 1, generation: 0 },
            ArchetypeEntity { index: 2, generation: 0 },
        ]
    );
}

#[test]
fn every_column_has_one_value_per_live_entity() {
    let mut archetype = pair_archetype();
    for i in 0..5u32 {
        archetype.insert(pair(i, u64::from(i) * 10));
        let live = archetype.len();
        assert_eq!(live, (i + 1) as usize);
        assert_eq!(archetype.entities().len(), live);
        assert_eq!(archetype.slots(), live);
        assert!(archetype.read(32, live - 1).is_some());
        assert!(archetype.read(32, live).is_none());
        assert!(archetype.read(64, live - 1).is_some());
        assert!(archetype.read(64, live).is_none());
    }
    assert_eq!(archetype.read(32, 3), Some(&Scalar::U32(3)));
    assert_eq!(archetype.read(64, 3), Some(&Scalar::U64(30)));
}

#[test]
fn is_alive_compares_generations() {
    let mut archetype = pair_archetype();
    archetype.insert(pair(1, 2));
    assert!(archetype.is_alive(ArchetypeEntry { index: 0, generation: 0 }));
    assert!(!archetype.is_alive(ArchetypeEntry { index: 0, generation: 1 }));
}

#[test]
fn get_column_is_absent_for_a_type_outside_the_layout() {
    let mut archetype = pair_archetype();
    archetype.insert(pair(1, 2));
    assert_eq!(archetype.get_column(128), None);
    assert_eq!(archetype.get_column_mut(128), None);
    assert!(archetype.is_unborrowed());
}

#[test]
fn read_and_write_of_one_type_conflict() {
    let mut archetype = pair_archetype();
    archetype.insert(pair(1, 2));
    let guard = archetype.get_column(32);
    assert_eq!(guard, Some(ColumnGuard { type_key: 32, len: 1, exclusive: false }));
    assert!(!archetype.can_lend(32, true));
    assert!(archetype.can_lend(32, false));
    archetype.release(guard.unwrap());
    assert!(archetype.can_lend(32, true));

    let guard = archetype.get_column_mut(32);
    assert_eq!(guard, Some(ColumnGuard { type_key: 32, len: 1, exclusive: true }));
    assert!(!archetype.can_lend(32, false));
    assert!(!archetype.can_lend(32, true));
    archetype.release(guard.unwrap());
    assert!(archetype.is_unborrowed());
}

#[test]
fn accessors_of_different_types_coexist() {
    let mut archetype = pair_archetype();
    archetype.insert(pair(1, 2));
    let read = archetype.get_column(32).unwrap();
    assert!(archetype.can_lend(64, true));
    let write = archetype.get_column_mut(64).unwrap();
    assert!(!archetype.is_unborrowed());
    archetype.write(64, 0, Scalar::U64(20));
    assert_eq!(archetype.read(64, 0), Some(&Scalar::U64(20)));
    assert_eq!(archetype.read(32, 0), Some(&Scalar::U32(1)));
    archetype.release(write);
    archetype.release(read);
    assert!(archetype.is_unborrowed());
}

#[test]
fn default_archetype_has_the_empty_layout() {
    let mut archetype: Archetype<Scalar> = Archetype::default();
    assert_eq!(archetype.layout().len(), 0);
    assert_eq!(archetype.len(), 0);
    archetype.insert(Prototype::new());
    assert_eq!(archetype.len(), 1);
    assert_eq!(archetype.entities(), vec![ArchetypeEntity { index: 0, generation: 0 }]);
}
