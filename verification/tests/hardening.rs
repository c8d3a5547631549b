use gvdb::{Database, HashTableBuilder, ReadError, Table};

fn sample() -> Vec<u8> {
    let mut b = HashTableBuilder::new();
    let root = b.new_table(None);
    let child = b.new_table(Some(root));
    for key in ["alpha", "beta", "gamma"] {
        let item = b.insert(root, key.as_bytes()).unwrap();
        b.set_value(item, key.as_bytes().to_vec()).unwrap();
    }
    let nested = b.insert(root, b"nested").unwrap();
    b.set_table(nested, child).unwrap();
    let x = b.insert(child, b"x").unwrap();
    b.set_value(x, b"v".to_vec()).unwrap();
    b.serialize(root, false).unwrap()
}

#[test]
fn header_errors() {
    let good = sample();
    assert_eq!(Database::open(&[], false).err(), Some(ReadError::BadMagic));
    assert_eq!(Database::open(b"GVD", true).err(), Some(ReadError::BadMagic));
    let mut bad = good.clone();
    bad[0] = b'X';
    assert_eq!(Database::open(&bad, false).err(), Some(ReadError::BadMagic));
    assert_eq!(Database::open(&bad, true).err(), Some(ReadError::BadMagic));
    let mut bad = good.clone();
    bad[4] = 2;
    assert_eq!(Database::open(&bad, false).err(), Some(ReadError::UnsupportedVersion));
    assert_eq!(Database::open(&bad, true).err(), Some(ReadError::UnsupportedVersion));
    let mut bad = good.clone();
    bad[5] = 2;
    assert_eq!(Database::open(&bad, true).err(), Some(ReadError::CorruptStructure));
    assert_eq!(Database::open(&good[..10], true).err(), Some(ReadError::CorruptStructure));
    assert!(Database::open(&good, false).is_ok());
}

#[test]
fn chain_head_past_the_end_is_refused() {
    let good = sample();
    let mut bad = good.clone();
    let far = (good.len() as u32 + 100).to_le_bytes();
    for b in 0..4 {
        bad[24 + 4 * b..28 + 4 * b].copy_from_slice(&far);
    }
    assert_eq!(Database::open(&bad, false).err(), Some(ReadError::CorruptStructure));
    let db = Database::open(&bad, true).unwrap();
    assert!(!db.is_valid());
    assert!(!db.is_valid());
    assert_eq!(db.get_value(db.root(), b"alpha"), Err(ReadError::CorruptStructure));
    assert_eq!(db.list_names(db.root()), Err(ReadError::CorruptStructure));
    assert!(!db.has(db.root(), b"alpha"));
}

#[test]
fn is_valid_is_idempotent() {
    let good = sample();
    let db = Database::open(&good, true).unwrap();
    assert_eq!(db.is_valid(), db.is_valid());
    assert!(db.is_valid());
}

#[test]
fn truncated_and_flipped_buffers_never_panic() {
    let good = sample();
    for cut in 0..good.len() {
        let part = &good[..cut];
        assert!(Database::open(part, false).is_err());
        if let Ok(db) = Database::open(part, true) {
            assert!(!db.is_valid());
            let _ = db.get_value(db.root(), b"alpha");
            let _ = db.list_names(db.root());
        }
    }
    for at in 8..good.len() {
        let mut bad = good.clone();
        bad[at] ^= 0xff;
        if let Ok(db) = Database::open(&bad, true) {
            let valid = db.is_valid();
            assert_eq!(Database::open(&bad, false).is_ok(), valid);
            for key in ["alpha", "beta", "gamma", "nested", "x"] {
                let _ = db.has(db.root(), key.as_bytes());
                let _ = db.get_value(db.root(), key.as_bytes());
                if let Ok(t) = db.get_table(db.root(), key.as_bytes()) {
                    let _ = db.list_names(t);
                    let _ = db.get_value(t, b"x");
                }
            }
        }
    }
}

#[test]
fn backward_links_are_refused() {
    let good = sample();
    // The root table starts at 16 and has four buckets: its first record is at 40.
    let mut bad = good.clone();
    bad[40 + 24..40 + 28].copy_from_slice(&40u32.to_le_bytes());
    assert_eq!(Database::open(&bad, false).err(), Some(ReadError::CorruptStructure));
    // A nested table that points back to the root.
    let db = Database::open(&good, false).unwrap();
    let t = db.get_table(db.root(), b"nested").unwrap();
    assert!(t.offset > 16);
    let mut bad = good.clone();
    let pos = bad.windows(4).rposition(|w| w == t.offset.to_le_bytes()).unwrap();
    bad[pos..pos + 4].copy_from_slice(&16u32.to_le_bytes());
    assert_eq!(Database::open(&bad, false).err(), Some(ReadError::CorruptStructure));
}

#[test]
fn a_table_handle_outside_the_buffer_is_corrupt() {
    let good = sample();
    let db = Database::open(&good, false).unwrap();
    let wild = Table { offset: u32::MAX, size: u32::MAX };
    assert_eq!(db.get_value(wild, b"alpha"), Err(ReadError::CorruptStructure));
    assert_eq!(db.get_table(wild, b"alpha"), Err(ReadError::CorruptStructure));
    assert_eq!(db.list_names(wild), Err(ReadError::CorruptStructure));
    assert!(!db.has(wild, b"alpha"));
}

#[test]
fn shared_nested_tables_are_walked_once() {
    let mut b = HashTableBuilder::new();
    let levels = 64;
    let mut ids = Vec::new();
    for _ in 0..=levels {
        ids.push(b.new_table(None));
    }
    for level in 0..levels {
        for key in ["left", "right"] {
            let item = b.insert(ids[level], key.as_bytes()).unwrap();
            b.set_table(item, ids[level + 1]).unwrap();
        }
    }
    let leaf = b.insert(ids[levels], b"leaf").unwrap();
    b.set_value(leaf, b"end".to_vec()).unwrap();
    let bytes = b.serialize(ids[0], false).unwrap();
    let db = Database::open(&bytes, false).unwrap();
    assert!(db.is_valid());
    let mut t = db.root();
    for level in 0..levels {
        let key: &[u8] = if level % 2 == 0 { b"left" } else { b"right" };
        t = db.get_table(t, key).unwrap();
    }
    assert_eq!(db.get_value(t, b"leaf"), Ok(&b"end"[..]));
}
