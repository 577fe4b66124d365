use replica::{fingerprint, FileObservation, LocalIndex, Tag};

/// An in-memory directory: relative path, content, modification time.
struct Disk {
    files: Vec<(String, Vec<u8>, u64)>,
}

impl Disk {
    fn new() -> Disk {
        Disk { files: Vec::new() }
    }

    fn write(&mut self, path: &str, content: &[u8], modified: u64) {
        for f in self.files.iter_mut() {
            if f.0 == path {
                f.1 = content.to_vec();
                f.2 = modified;
                return;
            }
        }
        self.files.push((path.to_string(), content.to_vec(), modified));
    }

    fn remove(&mut self, path: &str) {
        self.files.retain(|f| f.0 != path);
    }

    fn listing(&self) -> Vec<FileObservation> {
        self.files
            .iter()
            .map(|f| FileObservation::new(f.0.clone(), f.1.len() as u64, f.2))
            .collect()
    }

    fn content(&self, path: &str) -> Vec<u8> {
        self.files.iter().find(|f| f.0 == path).unwrap().1.clone()
    }
}

/// A full scan: reconcile, then fingerprint what the tag asks for.
fn scan(tag: &mut Tag, disk: &Disk) {
    for p in tag.index(&disk.listing()) {
        let content = disk.content(&p);
        assert!(tag.record_fingerprint(&p, fingerprint(&content)));
    }
}

#[test]
fn smoke_test_single_empty_tag() {
    let mut index = LocalIndex::new();
    index.new_tag("vids", "./vids", &Vec::new()).unwrap();
    assert_eq!(index.tags.len(), 1);
}

#[test]
fn test_simple_tag_with_one_file() {
    let mut disk = Disk::new();
    disk.write("f0", &[], 1);
    let mut tag = Tag::new("test", "/tmp/dir");
    scan(&mut tag, &disk);
    assert_eq!(tag.paths.len(), 1);
    assert_eq!(tag.bucket(0).len(), 1);
}

#[test]
fn test_simple_reindex_no_change() {
    let mut disk = Disk::new();
    disk.write("f0", &[], 1);
    let mut tag = Tag::new("test", "/tmp/dir");
    scan(&mut tag, &disk);
    assert_eq!(tag.paths.len(), 1);
    assert_eq!(tag.bucket(0).len(), 1);
    scan(&mut tag, &disk);
    assert_eq!(tag.paths.len(), 1);
    assert_eq!(tag.bucket(0).len(), 1);
}

#[test]
fn test_simple_reindex_modified_with_same_size_but_different_content() {
    let mut disk = Disk::new();
    let mut tag = Tag::new("test", "/tmp/dir");
    disk.write("f0", &[42], 1);
    scan(&mut tag, &disk);
    assert_eq!(tag.paths.len(), 1);
    assert_eq!(tag.bucket(1).len(), 1);
    disk.write("f0", &[43], 2);
    scan(&mut tag, &disk);
    assert_eq!(tag.paths.len(), 1);
    assert_eq!(tag.bucket(1).len(), 1);
}

#[test]
fn test_reindex_modified_with_different_initial_size_and_different_content() {
    let mut disk = Disk::new();
    disk.write("f1", &[], 1);
    disk.write("f2", &[], 1);
    let mut tag = Tag::new("test", "/tmp/dir");
    disk.write("f1", &[42], 2);
    scan(&mut tag, &disk);
    assert_eq!(tag.paths.len(), 2);
    assert_eq!(tag.bucket(0).len(), 1);
    assert_eq!(tag.bucket(1).len(), 1);
    disk.write("f2", &[43], 3);
    scan(&mut tag, &disk);
    assert_eq!(tag.paths.len(), 2);
    assert_eq!(tag.bucket(1).len(), 2);

    assert_ne!(tag.bucket(1)[0].hash, tag.bucket(1)[1].hash);
}

#[test]
fn test_simple_reindex_modified_with_new_size() {
    let mut disk = Disk::new();
    disk.write("f0", &[], 1);
    let mut tag = Tag::new("test", "/tmp/dir");
    scan(&mut tag, &disk);
    assert_eq!(tag.paths.len(), 1);
    assert_eq!(tag.bucket(0).len(), 1);
    disk.write("f0", &[42], 2);
    scan(&mut tag, &disk);
    assert_eq!(tag.paths.len(), 1);
    assert_eq!(tag.bucket(1).len(), 1);
}

#[test]
fn test_files_no_collision() {
    let mut disk = Disk::new();
    let mut tag = Tag::new("test", "/tmp/dir");
    for size in 0..5usize {
        disk.write(&format!("f{}", size), &vec![42; size], 1);
    }
    scan(&mut tag, &disk);
    assert_eq!(tag.bucket_count(), 5);
    assert_eq!(tag.paths.len(), 5);
    for size in 0..5u64 {
        assert_eq!(tag.bucket(size).len(), 1);
    }
}

#[test]
fn test_files_single_collision() {
    let mut disk = Disk::new();
    let mut tag = Tag::new("test", "/tmp/dir");
    let buf = vec![42; 1];
    disk.write("f1", &buf, 1);
    disk.write("f2", &buf, 1);
    scan(&mut tag, &disk);

    assert_eq!(tag.bucket_count(), 1);
    assert_eq!(tag.paths.len(), 2);
    assert_eq!(tag.bucket(1).len(), 2);
    assert_eq!(tag.bucket(1)[0].hash_stopped_at, 1);
}

#[test]
fn test_files_many_collisions() {
    let mut disk = Disk::new();
    let mut tag = Tag::new("test", "/tmp/dir");
    for i in 0..5 {
        disk.write(&format!("f{}", i), &vec![42; 42], 1);
    }
    scan(&mut tag, &disk);
    assert_eq!(tag.bucket_count(), 1);
    assert_eq!(tag.paths.len(), 5);
    assert_eq!(tag.bucket(42).len(), 5);
    for item in tag.bucket(42) {
        assert_eq!(item.hash_stopped_at, 42);
    }
}
