use gvdb::{BuildError, Database, HashTableBuilder, ReadError, Table, TableId};

fn build(entries: &[(&str, &[u8])], big: bool) -> Vec<u8> {
    let mut b = HashTableBuilder::new();
    let root = b.new_table(None);
    for (key, payload) in entries {
        let item = b.insert(root, key.as_bytes()).unwrap();
        b.set_value(item, payload.to_vec()).unwrap();
    }
    b.serialize(root, big).unwrap()
}

#[test]
fn values_come_back_exactly() {
    let entries: Vec<(&str, &[u8])> = vec![
        ("foo", b"hello, world"),
        ("bar", &[42, 0, 0, 0]),
        ("empty", b""),
        ("a", &[0xff]),
        ("another/longer/key", b"x"),
    ];
    for trusted in [false, true] {
        let bytes = build(&entries, false);
        let db = Database::open(&bytes, trusted).unwrap();
        assert!(db.is_valid());
        for (key, payload) in &entries {
            assert!(db.has(db.root(), key.as_bytes()));
            assert_eq!(db.get_value(db.root(), key.as_bytes()), Ok(*payload));
        }
        assert_eq!(db.get_value(db.root(), b"missing"), Err(ReadError::NotFound));
        assert!(!db.has(db.root(), b"missing"));
    }
}

#[test]
fn many_keys_come_back() {
    let mut b = HashTableBuilder::new();
    let root = b.new_table(None);
    for i in 0..300u32 {
        let key = format!("key-{}", i);
        let item = b.insert(root, key.as_bytes()).unwrap();
        b.set_value(item, i.to_le_bytes().to_vec()).unwrap();
    }
    let bytes = b.serialize(root, false).unwrap();
    let db = Database::open(&bytes, false).unwrap();
    for i in 0..300u32 {
        let key = format!("key-{}", i);
        assert_eq!(db.get_value(db.root(), key.as_bytes()).unwrap(), &i.to_le_bytes()[..]);
    }
    let mut names = db.list_names(db.root()).unwrap();
    names.sort();
    names.dedup();
    assert_eq!(names.len(), 300);
}

#[test]
fn both_byte_orders_give_the_same_lookups() {
    let entries: Vec<(&str, &[u8])> = vec![("foo", b"hello"), ("bar", b"world"), ("baz", &[1, 2, 3])];
    let little = build(&entries, false);
    let big = build(&entries, true);
    assert_ne!(little, big);
    assert_eq!(little.len(), big.len());
    let a = Database::open(&little, false).unwrap();
    let b = Database::open(&big, false).unwrap();
    assert!(!a.is_big_endian());
    assert!(b.is_big_endian());
    for key in ["foo", "bar", "baz", "nope"] {
        assert_eq!(a.get_value(a.root(), key.as_bytes()), b.get_value(b.root(), key.as_bytes()));
        assert_eq!(a.has(a.root(), key.as_bytes()), b.has(b.root(), key.as_bytes()));
    }
    let mut x = a.list_names(a.root()).unwrap();
    let mut y = b.list_names(b.root()).unwrap();
    x.sort();
    y.sort();
    assert_eq!(x, y);
}

#[test]
fn duplicate_key_is_refused_per_table() {
    let mut b = HashTableBuilder::new();
    let root = b.new_table(None);
    let child = b.new_table(Some(root));
    assert!(b.insert(root, b"k").is_ok());
    assert_eq!(b.insert(root, b"k"), Err(BuildError::DuplicateKey));
    assert!(b.insert(child, b"k").is_ok());
    assert_eq!(b.insert(child, b"k"), Err(BuildError::DuplicateKey));
    assert_eq!(b.item_count(root), 1);
    assert_eq!(b.item_count(child), 1);
}

#[test]
fn construction_errors() {
    let mut b = HashTableBuilder::new();
    let root = b.new_table(None);
    let child = b.new_table(Some(root));
    assert_eq!(b.table_count(), 2);
    assert_eq!(b.insert(TableId(7), b"k"), Err(BuildError::InvalidHandle));
    assert_eq!(b.insert(root, b""), Err(BuildError::EmptyKey));
    let v = b.insert(root, b"value").unwrap();
    let t = b.insert(root, b"table").unwrap();
    assert_eq!(b.set_value(v, vec![1]), Ok(()));
    assert_eq!(b.set_value(v, vec![2]), Ok(()));
    assert_eq!(b.set_table(v, child), Err(BuildError::ItemAlreadyBound));
    assert_eq!(b.set_table(t, child), Ok(()));
    assert_eq!(b.set_value(t, vec![1]), Err(BuildError::ItemAlreadyBound));
    let inner = b.insert(child, b"inner").unwrap();
    assert_eq!(b.set_table(inner, root), Err(BuildError::InvalidNesting));
    assert_eq!(b.set_table(inner, child), Err(BuildError::InvalidNesting));
    assert_eq!(b.set_table(inner, TableId(9)), Err(BuildError::InvalidHandle));
    assert_eq!(b.set_parent(inner, t), Ok(()));
    assert_eq!(
        b.set_parent(inner, gvdb::ItemId { table: 0, index: 5 }),
        Err(BuildError::InvalidHandle)
    );
    assert_eq!(b.serialize(TableId(2), false), Err(BuildError::InvalidHandle));
    let bytes = b.serialize(root, false).unwrap();
    let db = Database::open(&bytes, false).unwrap();
    assert_eq!(db.get_value(db.root(), b"value"), Ok(&[2u8][..]));
}

#[test]
fn wrong_kind_is_reported_both_ways() {
    let mut b = HashTableBuilder::new();
    let root = b.new_table(None);
    let child = b.new_table(Some(root));
    let v = b.insert(root, b"value").unwrap();
    b.set_value(v, b"payload".to_vec()).unwrap();
    let t = b.insert(root, b"table").unwrap();
    b.set_table(t, child).unwrap();
    let bytes = b.serialize(root, false).unwrap();
    let copy = bytes.clone();
    let db = Database::open(&bytes, false).unwrap();
    assert_eq!(db.get_table(db.root(), b"value"), Err(ReadError::WrongKind));
    assert_eq!(db.get_value(db.root(), b"table"), Err(ReadError::WrongKind));
    assert!(db.get_table(db.root(), b"table").is_ok());
    assert_eq!(db.get_value(db.root(), b"value"), Ok(&b"payload"[..]));
    assert_eq!(db.get_table(db.root(), b"nothing"), Err(ReadError::NotFound));
    assert_eq!(bytes, copy);
}

#[test]
fn nested_table_is_reached_through_its_item() {
    for big in [false, true] {
        let mut b = HashTableBuilder::new();
        let a = b.new_table(None);
        let inner = b.new_table(Some(a));
        let child = b.insert(a, b"child").unwrap();
        b.set_table(child, inner).unwrap();
        let x = b.insert(inner, b"x").unwrap();
        b.set_value(x, b"v".to_vec()).unwrap();
        let bytes = b.serialize(a, big).unwrap();
        let db = Database::open(&bytes, false).unwrap();
        let t = db.get_table(db.root(), b"child").unwrap();
        assert_eq!(db.get_value(t, b"x"), Ok(&b"v"[..]));
        assert_eq!(db.get_value(db.root(), b"x"), Err(ReadError::NotFound));
        assert_eq!(db.list_names(t).unwrap(), vec![b"x".to_vec()]);
    }
}

#[test]
fn empty_database() {
    let bytes = build(&[], false);
    assert_eq!(bytes.len(), 28);
    for trusted in [false, true] {
        let db = Database::open(&bytes, trusted).unwrap();
        assert_eq!(db.is_trusted(), trusted);
        assert!(db.is_valid());
        assert_eq!(db.root(), Table { offset: 16, size: 12 });
        assert!(db.list_names(db.root()).unwrap().is_empty());
        assert_eq!(db.get_value(db.root(), b"any"), Err(ReadError::NotFound));
        assert_eq!(db.get_table(db.root(), b"any"), Err(ReadError::NotFound));
        assert!(!db.has(db.root(), b"any"));
    }
}

#[test]
fn exact_bytes_of_a_small_database() {
    let bytes = build(&[("a", b"z")], false);
    let expected: Vec<u8> = vec![
        0x47, 0x56, 0x44, 0x42, 1, 0, 0, 0, 16, 0, 0, 0, 42, 0, 0, 0, // header
        1, 0, 0, 0, 1, 0, 0, 0, 28, 0, 0, 0, // one bucket, one item, head
        0x06, 0xb6, 0x02, 0x00, // hash of "a": 5381 * 33 + 97
        56, 0, 0, 0, 1, 0, 0, 0, // key
        0, 0, 0, 0, // kind
        57, 0, 0, 0, 1, 0, 0, 0, // data
        0, 0, 0, 0, // next
        b'a', b'z',
    ];
    assert_eq!(bytes, expected);
    let big = build(&[("a", b"z")], true);
    assert_eq!(&big[..16], &[0x47, 0x56, 0x44, 0x42, 1, 1, 0, 0, 0, 0, 0, 16, 0, 0, 0, 42]);
    assert_eq!(&big[28..32], &[0x00, 0x02, 0xb6, 0x06]);
}

#[test]
fn writing_is_reproducible() {
    let entries: Vec<(&str, &[u8])> = vec![("one", b"1"), ("two", b"22"), ("three", b"333")];
    assert_eq!(build(&entries, false), build(&entries, false));
    assert_eq!(build(&entries, true), build(&entries, true));
}

#[test]
fn hash_and_bucket_count() {
    assert_eq!(gvdb::hash_key(b""), 5381);
    assert_eq!(gvdb::hash_key(b"a"), 177670);
    assert_eq!(gvdb::hash_key(b"ab"), 5863208);
    assert_eq!(gvdb::hash_key(&[0xff; 16]), {
        let mut h: u32 = 5381;
        for _ in 0..16 {
            h = h.wrapping_mul(33).wrapping_add(0xff);
        }
        h
    });
    assert_eq!(gvdb::bucket_count(0), 1);
    assert_eq!(gvdb::bucket_count(1), 1);
    assert_eq!(gvdb::bucket_count(5), 5);
}

#[test]
fn unbound_item_is_written_as_an_empty_payload() {
    let mut b = HashTableBuilder::new();
    let root = b.new_table(None);
    b.insert(root, b"bare").unwrap();
    let bytes = b.serialize(root, true).unwrap();
    let db = Database::open(&bytes, false).unwrap();
    assert_eq!(db.get_value(db.root(), b"bare"), Ok(&b""[..]));
    assert_eq!(db.list_names(db.root()).unwrap(), vec![b"bare".to_vec()]);
}

#[test]
fn names_are_listed_once_each() {
    let keys = ["one", "two", "three", "four", "five", "six", "seven"];
    let mut b = HashTableBuilder::new();
    let root = b.new_table(None);
    for key in keys {
        let item = b.insert(root, key.as_bytes()).unwrap();
        b.set_value(item, vec![]).unwrap();
    }
    let bytes = b.serialize(root, false).unwrap();
    let db = Database::open(&bytes, true).unwrap();
    let names = db.list_names(db.root()).unwrap();
    assert_eq!(names.len(), keys.len());
    for key in keys {
        assert_eq!(names.iter().filter(|n| n.as_slice() == key.as_bytes()).count(), 1);
    }
    // Bucket by bucket: the hash modulo seven does not fall along the list.
    let buckets: Vec<u32> = names.iter().map(|n| gvdb::hash_key(n) % 7).collect();
    let mut sorted = buckets.clone();
    sorted.sort();
    assert_eq!(buckets, sorted);
}

#[test]
fn same_key_in_nested_tables() {
    let mut b = HashTableBuilder::new();
    let outer = b.new_table(None);
    let inner = b.new_table(Some(outer));
    let link = b.insert(outer, b"k").unwrap();
    b.set_table(link, inner).unwrap();
    let value = b.insert(inner, b"k").unwrap();
    b.set_value(value, b"deep".to_vec()).unwrap();
    let bytes = b.serialize(outer, false).unwrap();
    let db = Database::open(&bytes, false).unwrap();
    let t = db.get_table(db.root(), b"k").unwrap();
    assert_eq!(db.get_value(t, b"k"), Ok(&b"deep"[..]));
    assert_eq!(db.get_value(db.root(), b"k"), Err(ReadError::WrongKind));
    assert_eq!(db.get_table(t, b"k"), Err(ReadError::WrongKind));
}
