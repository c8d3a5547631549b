use gvdb::{BuildError, Builder, Database, ReadError};

#[test]
fn build_empty() {
    let bytes = Builder::new().write_to_buffer().unwrap();
    let db = Database::open(&bytes, false).unwrap();
    assert!(db.list_names(db.root()).unwrap().is_empty());
}

#[test]
fn build_byteswap() {
    let bytes = Builder::new().byteswap(true).write_to_buffer().unwrap();
    let db = Database::open(&bytes, false).unwrap();
    assert!(db.is_big_endian());
    assert_eq!(db.get_value(db.root(), b"foo"), Err(ReadError::NotFound));
}

#[test]
fn build_items() {
    let bytes = Builder::new()
        .item("foo", b"hello, world".to_vec())
        .item("bar", 42i32.to_le_bytes().to_vec())
        .write_to_buffer()
        .unwrap();
    let db = Database::open(&bytes, false).unwrap();
    assert_eq!(db.get_value(db.root(), b"foo"), Ok(&b"hello, world"[..]));
    assert_eq!(db.get_value(db.root(), b"bar"), Ok(&[42u8, 0, 0, 0][..]));
}

#[test]
fn build_refuses_bad_keys() {
    assert_eq!(
        Builder::new().item("a", vec![1]).item("a", vec![2]).write_to_buffer(),
        Err(BuildError::DuplicateKey)
    );
    assert_eq!(Builder::new().item("", vec![1]).write_to_buffer(), Err(BuildError::EmptyKey));
    assert_eq!(
        Builder::new().item("a", vec![1]).item("", vec![]).item("a", vec![]).write_to_buffer(),
        Err(BuildError::EmptyKey)
    );
}

#[test]
fn build_twice_gives_the_same_bytes() {
    let mut b = Builder::new();
    b.item("hello", b"world".to_vec()).byteswap(true);
    let first = b.write_to_buffer().unwrap();
    let second = b.write_to_buffer().unwrap();
    assert_eq!(first, second);
    b.byteswap(false);
    assert_ne!(b.write_to_buffer().unwrap(), first);
}
