use nano::archetypes::ArchetypeEntity;
use nano::component::Scalar;
use nano::prototype::Prototype;
use nano::world::{Entity, World, MAX_ARCHETYPES};

fn sample() -> World<Scalar> {
    let mut world = World::new();
    world.insert(Prototype::new().with(Scalar::U32(1)).with(Scalar::U64(2)).with(Scalar::U128(3)));
    world.insert(Prototype::new().with(Scalar::U32(4)).with(Scalar::U64(5)));
    world.insert(Prototype::new().with(Scalar::U32(6)));
    world.insert(Prototype::new().with(Scalar::U64(8)).with(Scalar::U32(7)));
    world
}

#[test]
fn new_world_is_empty() {
    let world: World<Scalar> = World::new();
    assert_eq!(world.archetypes().len(), 0);
    assert!(world.entities().is_empty());
    let world: World<Scalar> = World::default();
    assert_eq!(world.archetypes().len(), 0);
}

#[test]
fn a_prototype_without_components_has_its_archetype() {
    let mut world: World<Scalar> = World::new();
    world.insert(Prototype::new());
    world.insert(Prototype::new());
    assert_eq!(world.archetypes().len(), 1);
    assert_eq!(world.archetypes()[0].len(), 2);
    assert_eq!(world.archetypes()[0].layout().len(), 0);
    assert_eq!(world.entities().len(), 2);
}

#[test]
fn equal_layouts_share_an_archetype() {
    let mut world: World<Scalar> = World::new();
    world.insert(Prototype::new().with(Scalar::U32(1)).with(Scalar::U64(2)));
    assert_eq!(world.archetypes().len(), 1);
    assert_eq!(world.archetypes()[0].len(), 1);
    assert_eq!(world.archetypes()[0].read(32, 0), Some(&Scalar::U32(1)));
    world.insert(Prototype::new().with(Scalar::U64(20)).with(Scalar::U32(10)));
    assert_eq!(world.archetypes().len(), 1);
    assert_eq!(world.archetypes()[0].len(), 2);
    assert_eq!(world.archetypes()[0].read(32, 1), Some(&Scalar::U32(10)));
    assert_eq!(world.archetypes()[0].read(64, 1), Some(&Scalar::U64(20)));
    assert_eq!(world.archetypes()[0].read(32, 2), None);
    assert_eq!(world.archetypes()[0].read(64, 2), None);
}

#[test]
fn different_layouts_get_their_own_archetypes() {
    let world = sample();
    assert_eq!(world.archetypes().len(), 3);
    assert_eq!(world.archetypes()[0].len(), 1);
    assert_eq!(world.archetypes()[1].len(), 2);
    assert_eq!(world.archetypes()[2].len(), 1);
}

#[test]
fn entities_are_tagged_with_their_archetype() {
    let world = sample();
    assert_eq!(
        world.entities(),
        vec![
            Entity { archetype: 0, entry: ArchetypeEntity { index: 0, generation: 0 } },
            Entity { archetype: 1, entry: ArchetypeEntity { index: 0, generation: 0 } },
            Entity { archetype: 1, entry: ArchetypeEntity { index: 1, generation: 0 } },
            Entity { archetype: 2, entry: ArchetypeEntity { index: 0, generation: 0 } },
        ]
    );
}

#[test]
fn entities_twice_gives_the_same_list() {
    let world = sample();
    let first = world.entities();
    let second = world.entities();
    assert_eq!(first, second);
}

#[test]
fn find_archetype_returns_the_first_match() {
    let world = sample();
    let found = world.find_archetype(|archetype| archetype.layout().contains(64));
    assert_eq!(found.unwrap().layout().len(), 3);
    let found = world.find_archetype(|archetype| archetype.len() == 2);
    assert_eq!(found.unwrap().layout().len(), 2);
    assert!(world.find_archetype(|archetype| archetype.layout().contains(8)).is_none());
}

#[test]
fn find_archetype_mut_returns_the_first_match() {
    let mut world = sample();
    {
        let found = world.find_archetype_mut(|archetype| !archetype.layout().contains(128));
        let archetype = found.unwrap();
        archetype.insert(Prototype::new().with(Scalar::U32(9)).with(Scalar::U64(10)));
    }
    assert_eq!(world.archetypes()[1].len(), 3);
    assert!(world.find_archetype_mut(|archetype| archetype.len() == 7).is_none());
}

#[test]
fn archetypes_mut_opens_the_archetypes() {
    let mut world = sample();
    world.archetypes_mut()[2].insert(Prototype::new().with(Scalar::U32(11)));
    assert_eq!(world.archetypes()[2].len(), 2);
    assert_eq!(world.entities().len(), 5);
}

#[test]
fn find_layout_gives_the_target() {
    let world = sample();
    let known = Prototype::new().with(Scalar::U64(0)).with(Scalar::U32(0));
    let unknown = Prototype::new().with(Scalar::U8(0));
    assert_eq!(world.find_layout(&known.layout()), 1);
    assert_eq!(world.find_layout(&unknown.layout()), 3);
}

#[test]
fn can_insert_while_the_target_is_free() {
    let mut world = sample();
    let prototype = Prototype::new().with(Scalar::U32(0));
    assert!(world.can_insert(&prototype));
    let guard = world.archetypes_mut()[2].get_column(32).unwrap();
    assert!(!world.can_insert(&prototype));
    assert!(world.can_insert(&Prototype::new().with(Scalar::U16(0))));
    world.archetypes_mut()[2].release(guard);
    assert!(world.can_insert(&prototype));
    assert_eq!(MAX_ARCHETYPES, 65535);
}
