use iroh_bytes_db::database::{Database, DbPair};
use iroh_bytes_db::entry::DbEntry;
use iroh_bytes_db::hash::{format_hash, parse_hash, ContentHash};
use iroh_bytes_db::inmem::InMemDatabase;
use iroh_bytes_db::order::lex_less;
use iroh_bytes_db::outboard::{bytes_equal, outboard_and_hash};
use iroh_bytes_db::snapshot::Snapshot;
use iroh_bytes_db::store::{
    collection_file_hash, decode_paths, encode_paths, required_hashes, sort_paths, DataPaths,
};
use iroh_bytes_db::validate::{check_content, starting, ValidateProgress};

fn internal(data: &[u8]) -> (ContentHash, DbEntry) {
    let (outboard, hash) = outboard_and_hash(data);
    (hash, DbEntry::Internal { outboard, data: data.to_vec() })
}

fn external(data: &[u8], path: &str) -> (ContentHash, DbEntry) {
    let (outboard, hash) = outboard_and_hash(data);
    (
        hash,
        DbEntry::External { outboard, path: path.to_string(), size: data.len() as u64 },
    )
}

fn db_of(pairs: Vec<(ContentHash, DbEntry)>) -> Database {
    let mut db = Database::new();
    db.union_with(pairs);
    db
}

fn sorted_inner(db: &Database) -> Vec<(ContentHash, DbEntry)> {
    let mut v = db.to_inner();
    v.sort_by_key(|(h, _)| *h);
    v
}

#[test]
fn inmem_scenario_two_names() {
    let (db, names) = InMemDatabase::new(vec![
        ("a".to_string(), b"hello".to_vec()),
        ("b".to_string(), b"world".to_vec()),
    ]);
    assert_eq!(names.len(), 2);
    assert_eq!(names[0].0, "a");
    assert_eq!(names[1].0, "b");
    assert_ne!(names[0].1, names[1].1);
    let hello = outboard_and_hash(b"hello").1;
    assert_eq!(names[0].1, hello);
    assert_eq!(db.get(&hello), Some(b"hello".to_vec()));
    assert_eq!(db.blobs().len(), 2);
    assert!(db.roots().is_empty());
}

#[test]
fn content_hash_is_blake3_of_content() {
    let (outboard, hash) = outboard_and_hash(b"hello");
    assert_eq!(hash.as_bytes(), *blake3::hash(b"hello").as_bytes());
    assert_ne!(hash.as_bytes().to_vec(), b"hello".to_vec());
    // small content: the outboard is just the 8-byte length prefix
    assert_eq!(outboard, 5u64.to_le_bytes().to_vec());
}

#[test]
fn inmem_insert_same_content_twice() {
    let (mut db, _) = InMemDatabase::new(Vec::new());
    let h1 = db.insert(b"same bytes");
    let h2 = db.insert(b"same bytes");
    assert_eq!(h1, h2);
    assert_eq!(db.blobs(), vec![h1]);
    let e = db.lookup(&h1).unwrap();
    assert_eq!(e.hash, h1);
    assert_eq!(e.data, b"same bytes".to_vec());
    assert!(db.lookup(&ContentHash::from_bytes([0u8; 32])).is_none());
}

#[test]
fn union_with_keeps_existing_entry() {
    let (h, x) = internal(b"content");
    let mut db = db_of(vec![(h, x.clone())]);
    let y = DbEntry::External { outboard: vec![1, 2], path: "/elsewhere".to_string(), size: 7 };
    let (h2, z) = internal(b"other");
    db.union_with(vec![(h, y), (h2, z.clone())]);
    assert_eq!(db.get(&h), Some(x));
    assert_eq!(db.get(&h2), Some(z));
    assert_eq!(db.blobs().len(), 2);
}

#[test]
fn union_with_first_of_duplicates_wins() {
    let mut db = Database::new();
    let h = ContentHash::from_bytes([7u8; 32]);
    let a = DbEntry::Internal { outboard: vec![1], data: vec![1] };
    let b = DbEntry::Internal { outboard: vec![2], data: vec![2] };
    db.union_with(vec![(h, a.clone()), (h, b)]);
    assert_eq!(db.get(&h), Some(a));
}

#[test]
fn get_missing_is_none() {
    let db = db_of(vec![internal(b"x")]);
    assert_eq!(db.get(&ContentHash::from_bytes([9u8; 32])), None);
    assert!(db.lookup(&ContentHash::from_bytes([9u8; 32])).is_none());
    let h = internal(b"x").0;
    let pair: DbPair = db.lookup(&h).unwrap();
    assert_eq!(pair.hash, h);
}

#[test]
fn external_internal_blobs_roots() {
    let (he, e) = external(b"file content", "/data/file");
    let (hi, i) = internal(b"collection");
    let db = db_of(vec![(he, e), (hi, i)]);
    assert_eq!(db.external(), vec![(he, "/data/file".to_string(), 12u64)]);
    assert_eq!(db.internal(), vec![(hi, b"collection".to_vec())]);
    assert_eq!(db.roots(), vec![hi]);
    let mut blobs = db.blobs();
    blobs.sort();
    let mut want = vec![he, hi];
    want.sort();
    assert_eq!(blobs, want);
}

#[test]
fn snapshot_round_trip_keeps_index() {
    let db = db_of(vec![
        external(b"one", "/a/one"),
        internal(b"two"),
        external(b"three", "/a/three"),
    ]);
    let snap = db.snapshot();
    assert_eq!(snap.paths.len(), 3);
    assert_eq!(snap.outboards.len(), 3);
    assert_eq!(snap.collections.len(), 1);
    let back = Database::from_snapshot(&snap);
    assert_eq!(sorted_inner(&back), sorted_inner(&db));
}

#[test]
fn from_snapshot_drops_entries_without_outboard() {
    let (h, _) = internal(b"data");
    let h2 = ContentHash::from_bytes([3u8; 32]);
    let snap = Snapshot {
        paths: vec![(h, 4, None), (h2, 10, Some("/x".to_string()))],
        outboards: vec![(h, vec![4, 0, 0, 0, 0, 0, 0, 0])],
        collections: vec![(h, b"data".to_vec())],
    };
    let db = Database::from_snapshot(&snap);
    assert_eq!(
        db.get(&h),
        Some(DbEntry::Internal { outboard: vec![4, 0, 0, 0, 0, 0, 0, 0], data: b"data".to_vec() })
    );
    assert_eq!(db.get(&h2), None);
    assert_eq!(db.blobs().len(), 1);
}

#[test]
fn paths_file_round_trip_sorted() {
    let db = db_of(vec![
        external(b"one", "/a/one"),
        internal(b"two"),
        external(b"three", "/a/three"),
    ]);
    let snap = db.snapshot();
    let bytes = encode_paths(&snap.paths);
    let decoded = decode_paths(&bytes).unwrap();
    let mut want = snap.paths.clone();
    want.sort_by_key(|(h, _, _)| *h);
    assert_eq!(decoded, want);
    assert_eq!(sort_paths(&snap.paths), want);
    let mut outboards = snap.outboards.clone();
    outboards.reverse();
    let back = Database::from_snapshot(&Snapshot {
        paths: decoded,
        outboards,
        collections: snap.collections.clone(),
    });
    assert_eq!(sorted_inner(&back), sorted_inner(&db));
}

#[test]
fn paths_file_bytes_are_postcard() {
    let h = ContentHash::from_bytes([1u8; 32]);
    let bytes = encode_paths(&vec![(h, 3, Some("p".to_string()))]);
    let mut want = vec![1u8];
    want.extend_from_slice(&[1u8; 32]);
    want.extend_from_slice(&[3, 1, 1, b'p']);
    assert_eq!(bytes, want);
    assert_eq!(decode_paths(&[5, 1]), None);
}

#[test]
fn hex_file_names() {
    let h = ContentHash::from_bytes([0xab; 32]);
    assert_eq!(format_hash(&h), "ab".repeat(32));
    assert_eq!(parse_hash(&"ab".repeat(32)), Some(h));
    assert_eq!(parse_hash(&"AB".repeat(32)), Some(h));
    assert_eq!(parse_hash("abc"), None);
    assert_eq!(parse_hash(&"ab".repeat(31)), None);
    assert_eq!(parse_hash(&"zz".repeat(32)), None);
}

#[test]
fn collection_files_are_filtered() {
    let h = ContentHash::from_bytes([0x11; 32]);
    let other = ContentHash::from_bytes([0x22; 32]);
    let required = required_hashes(&vec![(h, 1, None), (h, 1, None)]);
    assert_eq!(required, vec![h]);
    assert_eq!(collection_file_hash(&format_hash(&h), &required), Some(h));
    assert_eq!(collection_file_hash(&format_hash(&other), &required), None);
    assert_eq!(collection_file_hash("not-a-hash", &required), None);
}

#[test]
fn data_paths_layout() {
    let p = DataPaths::new("/store".to_string());
    assert_eq!(p.outboards_dir, "/store/outboards");
    assert_eq!(p.collections_dir, "/store/collections");
    assert_eq!(p.paths_file, "/store/paths");
    let h = ContentHash::from_bytes([0u8; 32]);
    assert_eq!(p.outboard_file(&h), format!("/store/outboards/{}", "00".repeat(32)));
    assert_eq!(p.collection_file(&h), format!("/store/collections/{}", "00".repeat(32)));
}

#[test]
fn data_paths_join_like_paths() {
    let empty = DataPaths::new(String::new());
    assert_eq!(empty.outboards_dir, "outboards");
    assert_eq!(empty.collections_dir, "collections");
    assert_eq!(empty.paths_file, "paths");
    let slash = DataPaths::new("/store/".to_string());
    assert_eq!(slash.outboards_dir, "/store/outboards");
    let rel = DataPaths::new("data".to_string());
    assert_eq!(rel.paths_file, "data/paths");
    let h = ContentHash::from_bytes([0xffu8; 32]);
    assert_eq!(empty.outboard_file(&h), format!("outboards/{}", "ff".repeat(32)));
    for dir in ["", "/store/", "data"] {
        let p = DataPaths::new(dir.to_string());
        let want = std::path::Path::new(dir).join("outboards");
        assert_eq!(p.outboards_dir, want.to_str().unwrap());
    }
}

#[test]
fn paths_file_keeps_repeated_records() {
    let a = ContentHash::from_bytes([1u8; 32]);
    let b = ContentHash::from_bytes([2u8; 32]);
    let records = vec![(b, 2, None), (a, 1, None), (a, 1, None)];
    let sorted = sort_paths(&records);
    assert_eq!(sorted, vec![(a, 1, None), (a, 1, None), (b, 2, None)]);
    assert_eq!(decode_paths(&encode_paths(&records)).unwrap(), sorted);
}

#[test]
fn validation_of_fresh_database_has_no_errors() {
    let db = db_of(vec![internal(b"a"), internal(b"bb"), internal(b"ccc")]);
    let plan = db.validation_plan();
    assert_eq!(starting(&plan), ValidateProgress::Starting { total: 3 });
    for (i, task) in plan.iter().enumerate() {
        assert_eq!(task.id, i as u64);
        assert_eq!(task.verify(&Ok(Vec::new())), None);
    }
}

#[test]
fn validation_detects_corrupted_external_file() {
    let good = b"good file".to_vec();
    let bad = b"bad file".to_vec();
    let db = db_of(vec![external(&good, "/f/good"), external(&bad, "/f/bad"), internal(b"i")]);
    let plan = db.validation_plan();
    assert_eq!(starting(&plan), ValidateProgress::Starting { total: 3 });
    let mut errors = 0;
    for task in &plan {
        let file = match &task.entry {
            DbEntry::External { path, .. } if path == "/f/bad" => {
                let mut b = bad.clone();
                b[0] ^= 1;
                Ok(b)
            }
            DbEntry::External { .. } => Ok(good.clone()),
            DbEntry::Internal { .. } => Ok(Vec::new()),
        };
        let error = task.verify(&file);
        if let DbEntry::External { path, .. } = &task.entry {
            if path == "/f/bad" {
                assert!(error.is_some());
                errors += 1;
                continue;
            }
        }
        assert_eq!(error, None);
    }
    assert_eq!(errors, 1);
}

#[test]
fn validation_truncated_file_and_read_error() {
    let data = b"some content here".to_vec();
    let db = db_of(vec![external(&data, "/f/x")]);
    let plan = db.validation_plan();
    let task = &plan[0];
    assert!(task.verify(&Ok(data[..5].to_vec())).is_some());
    assert_eq!(task.verify(&Err("no such file".to_string())), Some("no such file".to_string()));
    let empty = task.verify(&Err(String::new())).unwrap();
    assert!(!empty.is_empty());
    assert_eq!(task.verify(&Ok(data.clone())), None);
}

#[test]
fn validation_order_external_by_path_then_internal() {
    let db = db_of(vec![
        internal(b"i1"),
        external(b"z", "/b"),
        internal(b"i2"),
        external(b"y", "/a"),
    ]);
    let plan = db.validation_plan();
    assert_eq!(plan.len(), 4);
    assert_eq!(plan[0].entry.blob_path().map(|p| p.as_str()), Some("/a"));
    assert_eq!(plan[1].entry.blob_path().map(|p| p.as_str()), Some("/b"));
    assert!(!plan[2].entry.is_external());
    assert!(!plan[3].entry.is_external());
    assert!(plan[2].hash < plan[3].hash);
    match plan[0].announce() {
        ValidateProgress::Entry { id, path, size, .. } => {
            assert_eq!(id, 0);
            assert_eq!(path, Some("/a".to_string()));
            assert_eq!(size, 1);
        }
        other => panic!("unexpected message {:?}", other),
    }
}

#[test]
fn check_content_outcomes() {
    let (outboard, hash) = outboard_and_hash(b"abc");
    assert_eq!(check_content(&hash, &outboard, b"abc"), None);
    assert!(check_content(&hash, &outboard, b"abd").is_some());
    assert!(check_content(&hash, &[0u8; 8], b"abc").is_some());
}

#[test]
fn byte_order_helpers() {
    assert!(lex_less(b"a", b"b"));
    assert!(lex_less(b"a", b"ab"));
    assert!(!lex_less(b"ab", b"ab"));
    assert!(!lex_less(b"b", b"a"));
    assert!(bytes_equal(b"xy", b"xy"));
    assert!(!bytes_equal(b"xy", b"x"));
}

#[test]
fn entry_size_and_kind() {
    let e = DbEntry::Internal { outboard: vec![], data: vec![1, 2, 3] };
    assert_eq!(e.size(), 3);
    assert!(!e.is_external());
    let x = DbEntry::External { outboard: vec![], path: "/p".to_string(), size: 42 };
    assert_eq!(x.size(), 42);
    assert!(x.is_external());
    assert_eq!(x.duplicate(), x);
}

#[test]
fn inmem_duplicate_name_last_wins() {
    let (db, names) = InMemDatabase::new(vec![
        ("a".to_string(), b"first".to_vec()),
        ("b".to_string(), b"other".to_vec()),
        ("a".to_string(), b"second".to_vec()),
    ]);
    assert_eq!(names.len(), 2);
    assert_eq!(names[0], ("b".to_string(), outboard_and_hash(b"other").1));
    assert_eq!(names[1], ("a".to_string(), outboard_and_hash(b"second").1));
    assert_eq!(db.blobs().len(), 3);
}

#[test]
fn validation_order_compares_path_segments() {
    let db = db_of(vec![external(b"p", "/x/a-b"), external(b"q", "/x/a/b")]);
    let plan = db.validation_plan();
    assert_eq!(plan[0].entry.blob_path().map(|p| p.as_str()), Some("/x/a/b"));
    assert_eq!(plan[1].entry.blob_path().map(|p| p.as_str()), Some("/x/a-b"));
    assert!(std::path::Path::new("/x/a/b") < std::path::Path::new("/x/a-b"));
}

#[test]
fn check_content_errors_are_not_empty() {
    let (outboard, hash) = outboard_and_hash(b"abc");
    assert!(!check_content(&hash, &outboard, b"xyz").unwrap().is_empty());
    assert!(!check_content(&hash, &[], b"abc").unwrap().is_empty());
}
