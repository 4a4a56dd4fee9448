use nano::component::Scalar;
use nano::prototype::Prototype;

#[test]
fn new_prototype_has_an_empty_layout() {
    let prototype: Prototype<Scalar> = Prototype::new();
    assert_eq!(prototype.layout().len(), 0);
    assert_eq!(prototype.components().len(), 0);
}

#[test]
fn with_collects_one_component_per_type() {
    let prototype = Prototype::new().with(Scalar::U32(1)).with(Scalar::U64(2));
    let layout = prototype.layout();
    assert_eq!(layout.len(), 2);
    assert!(layout.contains(32));
    assert!(layout.contains(64));
    assert!(!layout.contains(128));
    assert_eq!(prototype.components(), vec![Scalar::U32(1), Scalar::U64(2)]);
}

#[test]
fn the_last_write_of_a_type_wins() {
    let prototype =
        Prototype::new().with(Scalar::U32(1)).with(Scalar::U64(2)).with(Scalar::U32(3));
    assert_eq!(prototype.layout().len(), 2);
    assert_eq!(prototype.components(), vec![Scalar::U32(3), Scalar::U64(2)]);
}
