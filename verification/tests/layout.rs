use nano::layout::Layout;

#[test]
fn new_layout_is_empty() {
    let layout = Layout::new();
    assert_eq!(layout.len(), 0);
    assert!(!layout.contains(32));
}

#[test]
fn insert_adds_a_key_once() {
    let mut layout = Layout::new();
    layout.insert(32);
    layout.insert(64);
    layout.insert(32);
    assert_eq!(layout.len(), 2);
    assert!(layout.contains(32));
    assert!(layout.contains(64));
    assert!(!layout.contains(128));
}

#[test]
fn layouts_are_equal_whatever_the_order() {
    let mut a = Layout::new();
    a.insert(32);
    a.insert(64);
    let mut b = Layout::new();
    b.insert(64);
    b.insert(32);
    assert!(a.equals(&b));
    assert!(b.equals(&a));
}

#[test]
fn layouts_of_different_keys_differ() {
    let mut a = Layout::new();
    a.insert(32);
    a.insert(64);
    let mut b = Layout::new();
    b.insert(32);
    b.insert(128);
    let mut c = Layout::new();
    c.insert(32);
    assert!(!a.equals(&b));
    assert!(!a.equals(&c));
    assert!(c.is_subset(&a));
    assert!(!a.is_subset(&c));
}

#[test]
fn duplicate_holds_the_same_keys() {
    let mut a = Layout::new();
    a.insert(8);
    a.insert(16);
    let b = a.duplicate();
    assert!(a.equals(&b));
    assert_eq!(b.len(), 2);
}
