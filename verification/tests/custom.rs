use nano::component::Component;
use nano::layout::TypeKey;
use nano::prototype::Prototype;
use nano::query::{Query, Access, QueryRow};
use nano::world::World;

#[derive(Clone, Debug, PartialEq)]
enum Part {
    Name(String),
    Position(i32, i32),
    Health(u16),
}

impl Component for Part {
    fn type_key(&self) -> TypeKey {
        self.type_id()
    }

    fn type_id(&self) -> TypeKey {
        match self {
            Part::Name(_) => 1,
            Part::Position(_, _) => 2,
            Part::Health(_) => 3,
        }
    }
}

#[test]
fn components_of_the_caller_are_stored_and_found() {
    let mut world: World<Part> = World::new();
    world.insert(Prototype::new().with(Part::Name(String::from("a"))).with(Part::Position(1, 2)));
    world.insert(Prototype::new().with(Part::Position(3, 4)).with(Part::Health(9)));
    world.insert(Prototype::new().with(Part::Position(5, 6)).with(Part::Name(String::from("b"))));
    assert_eq!(world.archetypes().len(), 2);
    let mut query = Query::new(&mut world, vec![Access::Mut(2), Access::OptionRef(1)], ());
    let mut seen = Vec::new();
    while let Some(row) = query.next() {
        seen.push((row, query.get(&world, row, 0).cloned(), query.get(&world, row, 1).cloned()));
        query.set(&mut world, row, 0, Part::Position(0, 0));
    }
    query.release(&mut world);
    assert_eq!(
        seen,
        vec![
            (QueryRow { archetype: 1, index: 0 }, Some(Part::Position(3, 4)), None),
            (
                QueryRow { archetype: 0, index: 0 },
                Some(Part::Position(1, 2)),
                Some(Part::Name(String::from("a")))
            ),
            (
                QueryRow { archetype: 0, index: 1 },
                Some(Part::Position(5, 6)),
                Some(Part::Name(String::from("b")))
            ),
        ]
    );
    assert_eq!(world.archetypes()[0].read(2, 1), Some(&Part::Position(0, 0)));
}
