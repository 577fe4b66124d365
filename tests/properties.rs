use replica::{
    fingerprint, FileChangeEvent, FileObservation, Fingerprinter, IndexError, IndexItem,
    LocalIndex, Tag,
};

fn obs(path: &str, content: &[u8], modified: u64) -> FileObservation {
    FileObservation::new(path.to_string(), content.len() as u64, modified)
}

/// Reconciles `tag` with the files, then fingerprints what it asks for.
fn scan(tag: &mut Tag, files: &[(&str, &[u8], u64)]) {
    let listing: Vec<FileObservation> = files.iter().map(|f| obs(f.0, f.1, f.2)).collect();
    for p in tag.index(&listing) {
        let content = files.iter().find(|f| f.0 == p).unwrap().1;
        assert!(tag.record_fingerprint(&p, fingerprint(content)));
    }
}

#[test]
fn distinct_sizes_make_one_bucket_each_and_hash_nothing() {
    let mut tag = Tag::new("t", "/r");
    let files: Vec<(&str, &[u8], u64)> =
        vec![("a", b"", 1), ("b", b"x", 1), ("c", b"xy", 1), ("d", b"xyz", 1)];
    scan(&mut tag, &files);
    assert_eq!(tag.bucket_count(), 4);
    for size in 0..4u64 {
        assert_eq!(tag.bucket(size).len(), 1);
    }
    for item in &tag.paths {
        assert_eq!(item.hash_stopped_at, 0);
    }
    assert!(tag.pending().is_empty());
}

#[test]
fn same_size_files_are_fully_hashed() {
    let mut tag = Tag::new("t", "/r");
    scan(&mut tag, &[("a", b"hello", 1), ("b", b"world", 1)]);
    for item in &tag.paths {
        assert_eq!(item.hash_stopped_at, item.file_size);
        assert_eq!(item.hash_stopped_at, 5);
    }
}

#[test]
fn docs_scenario_identical_files() {
    let mut index = LocalIndex::new();
    let listing = vec![obs("a.txt", b"A", 7), obs("b.txt", b"A", 7)];
    let (t, work) = index.new_tag("docs", "/tmp/docs", &listing).unwrap();
    for p in work {
        assert!(index.tags[t].record_fingerprint(&p, fingerprint(b"A")));
    }
    let tag = &index.tags[t];
    let bucket = tag.bucket(1);
    assert_eq!(bucket.len(), 2);
    assert!(bucket.iter().all(|r| r.hash_stopped_at == 1));
    let groups = tag.redundancies();
    assert_eq!(groups.len(), 1);
    assert_eq!(groups[0].len(), 1);
    assert_eq!(groups[0][0].file_path, "b.txt");
    assert_eq!(groups[0][0], bucket[1]);
}

#[test]
fn docs_scenario_different_files() {
    let mut tag = Tag::new("docs", "/tmp/docs");
    scan(&mut tag, &[("a.txt", b"A", 7), ("b.txt", b"B", 7)]);
    let bucket = tag.bucket(1);
    assert_eq!(bucket.len(), 2);
    assert_ne!(bucket[0].hash, bucket[1].hash);
    assert!(tag.redundancies().is_empty());
}

#[test]
fn rescan_without_change_keeps_the_state() {
    let mut tag = Tag::new("t", "/r");
    let files: Vec<(&str, &[u8], u64)> =
        vec![("a", b"same", 1), ("b", b"same", 2), ("c", b"other!", 3)];
    scan(&mut tag, &files);
    let first = tag.clone();
    scan(&mut tag, &files);
    assert_eq!(tag, first);
}

#[test]
fn deleted_file_leaves_bucket_and_paths() {
    let mut tag = Tag::new("t", "/r");
    scan(&mut tag, &[("a", b"1234", 1), ("b", b"5678", 1), ("c", b"1234", 1)]);
    assert_eq!(tag.bucket(4).len(), 3);
    scan(&mut tag, &[("a", b"1234", 1), ("c", b"1234", 1)]);
    assert_eq!(tag.bucket(4).len(), 2);
    assert_eq!(tag.paths.len(), 2);
    assert!(tag.paths.iter().all(|r| r.file_path != "b"));
}

#[test]
fn modified_same_size_record_is_hashed_again() {
    let mut tag = Tag::new("t", "/r");
    scan(&mut tag, &[("a", b"aa", 1), ("b", b"aa", 1)]);
    assert_eq!(tag.redundancies().len(), 1);
    let work = tag.index(&vec![obs("a", b"aa", 1), obs("b", b"bb", 5)]);
    assert_eq!(work, vec!["b".to_string()]);
    assert_eq!(tag.pending(), vec!["b".to_string()]);
    assert_eq!(tag.paths[1].hash_stopped_at, 0);
    assert_eq!(tag.paths[1].last_modified, 5);
    assert!(tag.record_fingerprint(&"b".to_string(), fingerprint(b"bb")));
    assert!(tag.redundancies().is_empty());
}

#[test]
fn size_change_moves_record_behind_the_others() {
    let mut tag = Tag::new("t", "/r");
    scan(&mut tag, &[("a", b"a", 1), ("b", b"bb", 1), ("c", b"cc", 1)]);
    scan(&mut tag, &[("a", b"aaa", 2), ("b", b"bb", 1), ("c", b"cc", 1), ("d", b"d", 1)]);
    let order: Vec<&str> = tag.paths.iter().map(|r| r.file_path.as_str()).collect();
    assert_eq!(order, vec!["b", "c", "a", "d"]);
    assert_eq!(tag.paths[2].file_size, 3);
    assert_eq!(tag.paths[2].hash_stopped_at, 0);
}

#[test]
fn duplicate_listing_entries_give_one_record() {
    let mut tag = Tag::new("t", "/r");
    tag.index(&vec![obs("a", b"x", 1), obs("a", b"yy", 2)]);
    assert_eq!(tag.paths.len(), 1);
    assert_eq!(tag.paths[0].file_size, 1);
}

#[test]
fn empty_files_are_copies_of_each_other() {
    let mut tag = Tag::new("t", "/r");
    scan(&mut tag, &[("a", b"", 1), ("b", b"", 1), ("c", b"", 1)]);
    let groups = tag.redundancies();
    assert_eq!(groups.len(), 1);
    let names: Vec<&str> = groups[0].iter().map(|r| r.file_path.as_str()).collect();
    assert_eq!(names, vec!["b", "c"]);
}

#[test]
fn unhashed_records_are_never_grouped() {
    let mut tag = Tag::new("t", "/r");
    tag.index(&vec![obs("a", b"xx", 1), obs("b", b"xx", 1)]);
    assert_eq!(tag.pending().len(), 2);
    assert!(tag.redundancies().is_empty());
}

#[test]
fn record_fingerprint_of_unknown_path_changes_nothing() {
    let mut tag = Tag::new("t", "/r");
    scan(&mut tag, &[("a", b"x", 1)]);
    let before = tag.clone();
    assert!(!tag.record_fingerprint(&"zz".to_string(), 9));
    assert_eq!(tag, before);
}

#[test]
fn change_events() {
    let item = IndexItem::new(&obs("a", b"abc", 10));
    assert_eq!(item.hash_stopped_at, 0);
    assert_eq!(item.file_changed_event(None), FileChangeEvent::Deleted);
    assert_eq!(item.file_changed_event(Some(&obs("a", b"abc", 10))), FileChangeEvent::NoChange);
    assert_eq!(item.file_changed_event(Some(&obs("a", b"abd", 11))), FileChangeEvent::Modified);
    assert_eq!(item.file_changed_event(Some(&obs("a", b"ab", 10))), FileChangeEvent::Modified);
    assert_eq!(item.file_changed_event(Some(&obs("a", b"abc", 9))), FileChangeEvent::Modified);
}

#[test]
fn absolute_path_joins_root_and_relative_path() {
    let item = IndexItem::new(&obs("sub/a.txt", b"", 1));
    assert_eq!(item.absolute_path("/home/me/docs"), "/home/me/docs/sub/a.txt");
    assert_eq!(item.absolute_path("/home/me/docs/"), "/home/me/docs/sub/a.txt");
    assert_eq!(item.absolute_path("/"), "/sub/a.txt");
    assert_eq!(item.absolute_path(""), "sub/a.txt");
}

#[test]
fn fingerprint_streams_like_one_shot() {
    let mut f = Fingerprinter::new();
    f.update(b"hello ");
    f.update(b"world");
    assert_eq!(f.finish(), fingerprint(b"hello world"));
    assert_ne!(fingerprint(b"A"), fingerprint(b"B"));
    assert_eq!(fingerprint(b""), 0xef46db3751d8e999);
}

#[test]
fn new_tag_with_taken_name_over_other_root_is_refused() {
    let mut index = LocalIndex::new();
    index.new_tag("docs", "/a", &vec![obs("x", b"1", 1)]).unwrap();
    assert_eq!(index.new_tag("docs", "/b", &Vec::new()), Err(IndexError::TagNameTaken));
    assert_eq!(index.tags.len(), 1);
    assert_eq!(index.tags[0].paths.len(), 1);
    assert_eq!(index.new_tag("docs", "/a", &Vec::new()).map(|r| r.0), Ok(0));
    assert_eq!(index.tags[0].paths.len(), 0);
    assert_eq!(index.new_tag("pics", "/p", &Vec::new()).map(|r| r.0), Ok(1));
}

#[test]
fn cross_tag_redundancies_and_matching() {
    let mut index = LocalIndex::new();
    let t0 = index.new_tag("one", "/one", &vec![obs("a", b"zz", 1), obs("b", b"zz", 1)]).unwrap().0;
    let t1 = index.new_tag("two", "/two", &vec![obs("c", b"zz", 1), obs("d", b"qq", 1)]).unwrap().0;
    for t in [t0, t1] {
        for p in index.tags[t].pending() {
            let content: &[u8] = if p == "d" { b"qq" } else { b"zz" };
            assert!(index.tags[t].record_fingerprint(&p, fingerprint(content)));
        }
    }
    let groups = index.redundancies();
    assert_eq!(groups.len(), 1);
    let names: Vec<&str> = groups[0].iter().map(|r| r.file_path.as_str()).collect();
    assert_eq!(names, vec!["b", "c"]);
    let found = index.find_matching(2, fingerprint(b"zz"));
    assert_eq!(found.len(), 3);
    assert!(index.find_matching(3, fingerprint(b"zzz")).is_empty());
}

#[test]
fn lone_file_rewritten_at_same_size_is_fingerprinted_again() {
    let mut tag = Tag::new("t", "/r");
    let work = tag.index(&vec![obs("a", b"abc", 1)]);
    assert!(work.is_empty());
    assert_eq!(tag.paths[0].hash_stopped_at, 0);
    let work = tag.index(&vec![obs("a", b"xyz", 2)]);
    assert_eq!(work, vec!["a".to_string()]);
    assert!(tag.pending().is_empty());
    assert!(tag.record_fingerprint(&"a".to_string(), fingerprint(b"xyz")));
    assert_eq!(tag.paths[0].hash_stopped_at, 3);
    assert_eq!(tag.paths[0].hash, fingerprint(b"xyz"));
    assert_eq!(tag.paths[0].last_modified, 2);
    assert!(tag.index(&vec![obs("a", b"xyz", 2)]).is_empty());
}

#[test]
fn one_group_per_content_class() {
    let mut tag = Tag::new("t", "/r");
    scan(&mut tag, &[("a", b"11", 1), ("b", b"11", 1), ("c", b"22", 1), ("d", b"22", 1), ("e", b"11", 1)]);
    let groups = tag.redundancies();
    assert_eq!(groups.len(), 2);
    let first: Vec<&str> = groups[0].iter().map(|r| r.file_path.as_str()).collect();
    let second: Vec<&str> = groups[1].iter().map(|r| r.file_path.as_str()).collect();
    assert_eq!(first, vec!["b", "e"]);
    assert_eq!(second, vec!["d"]);
    let mut index = LocalIndex::new();
    index.tags.push(tag);
    assert_eq!(index.redundancies().len(), 2);
}
