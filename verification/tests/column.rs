use nano::column::Column;
use nano::component::{Component, Scalar, KEY_U128, KEY_U32, KEY_U64};

#[test]
fn scalar_keys_are_the_widths() {
    assert_eq!(Scalar::U8(1).type_id(), 8);
    assert_eq!(Scalar::U16(1).type_id(), 16);
    assert_eq!(Scalar::U32(1).type_id(), 32);
    assert_eq!(Scalar::U64(1).type_id(), 64);
    assert_eq!(Scalar::U128(1).type_id(), 128);
    assert_eq!(KEY_U32, 32);
    assert_eq!(KEY_U128, 128);
}

#[test]
fn push_appends_in_order() {
    let mut column: Column<Scalar> = Column::new(KEY_U32);
    assert_eq!(column.len(), 0);
    assert_eq!(column.type_key(), 32);
    column.push(Scalar::U32(7));
    column.push(Scalar::U32(9));
    assert_eq!(column.len(), 2);
    assert_eq!(*column.get(0), Scalar::U32(7));
    assert_eq!(*column.get(1), Scalar::U32(9));
}

#[test]
fn readers_exclude_the_writer() {
    let mut column: Column<Scalar> = Column::new(KEY_U64);
    assert!(column.can_read());
    assert!(column.can_write());
    column.acquire_read();
    assert!(column.can_read());
    assert!(!column.can_write());
    column.acquire_read();
    column.release_read();
    assert!(!column.can_write());
    column.release_read();
    assert!(column.can_write());
}

#[test]
fn the_writer_excludes_everyone() {
    let mut column: Column<Scalar> = Column::new(KEY_U64);
    column.push(Scalar::U64(1));
    column.acquire_write();
    assert!(!column.can_read());
    assert!(!column.can_write());
    column.set(0, Scalar::U64(5));
    assert_eq!(*column.get(0), Scalar::U64(5));
    column.release_write();
    assert!(column.can_read());
    assert!(column.can_write());
}

#[test]
fn the_record_counts_its_accessors() {
    let mut column: Column<Scalar> = Column::new(KEY_U128);
    assert_eq!(column.reader_count(), 0);
    assert!(!column.is_written());
    column.acquire_read();
    column.acquire_read();
    assert_eq!(column.reader_count(), 2);
    column.release_read();
    column.release_read();
    column.acquire_write();
    assert!(column.is_written());
    assert_eq!(column.reader_count(), 0);
}
