use vstd::prelude::*;

verus! {

/// What the directory walk saw of one regular file under a tag's root.
#[derive(Debug, Clone, PartialEq, Eq)]
pub struct FileObservation {
    /// Path of the file relative to the tag's root.
    pub relative_path: String,
    /// Length of the file in bytes.
    pub size: u64,
    /// Modification time of the file, as a count of time units since a fixed epoch.
    pub modified: u64,
}

/// Mathematical model of a `FileObservation`.
pub struct Observed {
    pub path: Seq<char>,
    pub size: u64,
    pub modified: u64,
}

impl View for FileObservation {
    type V = Observed;

    open spec fn view(&self) -> Observed {
        Observed { path: self.relative_path@, size: self.size, modified: self.modified }
    }
}

impl FileObservation {
    pub fn new(relative_path: String, size: u64, modified: u64) -> (r: FileObservation)
        ensures
            r.relative_path@ == relative_path@,
            r.size == size,
            r.modified == modified,
    {
        FileObservation { relative_path, size, modified }
    }
}

/// How a file changed since its record was last computed.
#[derive(Debug, Clone, Copy, PartialEq, Eq)]
pub enum FileChangeEvent {
    Modified,
    Deleted,
    Created,
    NoChange,
}

/// The per-file state of an indexed file.
#[derive(Debug, Clone, PartialEq, Eq)]
pub struct IndexItem {
    /// The file path relative to the root of the tag that holds this record.
    pub file_path: String,
    /// Length of the file in bytes when it was last observed.
    pub file_size: u64,
    /// Fingerprint of the first `hash_stopped_at` bytes of the file.
    pub hash: u64,
    /// Number of bytes folded into `hash`; zero when the file was never hashed.
    pub hash_stopped_at: u64,
    /// Modification time observed when the record was (re)computed.
    pub last_modified: u64,
}

/// Mathematical model of an `IndexItem`.
pub struct FileRecord {
    pub path: Seq<char>,
    pub size: u64,
    pub fingerprint: u64,
    pub horizon: u64,
    pub modified: u64,
}

impl View for IndexItem {
    type V = FileRecord;

    open spec fn view(&self) -> FileRecord {
        FileRecord {
            path: self.file_path@,
            size: self.file_size,
            fingerprint: self.hash,
            horizon: self.hash_stopped_at,
            modified: self.last_modified,
        }
    }
}

/// The models of a sequence of records.
pub open spec fn records_of(v: Seq<IndexItem>) -> Seq<FileRecord> {
    v.map_values(|x: IndexItem| x@)
}

/// The models of a directory listing.
pub open spec fn observations_of(v: Seq<FileObservation>) -> Seq<Observed> {
    v.map_values(|x: FileObservation| x@)
}

/// A record for a file that was just discovered: never hashed.
pub open spec fn fresh_record(o: Observed) -> FileRecord {
    FileRecord { path: o.path, size: o.size, fingerprint: 0, horizon: 0, modified: o.modified }
}

/// A record is fully hashed when its fingerprint covers every byte of the file.
pub open spec fn fully_hashed(r: FileRecord) -> bool {
    r.horizon == r.size
}

/// The change classification of record `r` against what the walk saw at its path.
/// A file counts as modified when its size or its modification time differs from
/// the recorded one, in either direction.
pub open spec fn change_of(r: FileRecord, o: Option<Observed>) -> FileChangeEvent {
    match o {
        None => FileChangeEvent::Deleted,
        Some(o) => if o.size != r.size || o.modified != r.modified {
            FileChangeEvent::Modified
        } else {
            FileChangeEvent::NoChange
        },
    }
}

/// The path `rel` under `root`: one separator between the two, none added when `root`
/// is empty or already ends with one.
pub open spec fn joined_path(root: Seq<char>, rel: Seq<char>) -> Seq<char> {
    if root.len() == 0 || root.last() == '/' {
        root + rel
    } else {
        root + seq!['/'] + rel
    }
}

impl IndexItem {
    /// A record for a newly observed file, not hashed yet.
    pub fn new(observed: &FileObservation) -> (r: IndexItem)
        ensures
            r@ == fresh_record(observed@),
    {
        IndexItem {
            file_path: observed.relative_path.clone(),
            file_size: observed.size,
            hash: 0,
            hash_stopped_at: 0,
            last_modified: observed.modified,
        }
    }

    /// A copy of this record.
    pub fn duplicate(&self) -> (r: IndexItem)
        ensures
            r@ == self@,
    {
        IndexItem {
            file_path: self.file_path.clone(),
            file_size: self.file_size,
            hash: self.hash,
            hash_stopped_at: self.hash_stopped_at,
            last_modified: self.last_modified,
        }
    }

    /// The absolute path of the file, given the root path of the tag that holds it.
    pub fn absolute_path(&self, tag_root: &str) -> (r: String)
        ensures
            r@ == joined_path(tag_root@, self.file_path@),
    {
        let mut r = String::from_str(tag_root);
        let n = tag_root.unicode_len();
        let ends_with_separator = n == 0 || tag_root.get_char(n - 1) == '/';
        if !ends_with_separator {
            let sep = "/";
            proof {
                reveal_strlit("/");
                assert(sep@ =~= seq!['/']);
            }
            r.append(sep);
        }
        assert(ends_with_separator == (tag_root@.len() == 0 || tag_root@.last() == '/'));
        r.append(self.file_path.as_str());
        assert(r@ =~= joined_path(tag_root@, self.file_path@));
        r
    }

    /// The status of the file since it was last indexed, given what the walk saw
    /// at its path (`None` when nothing is there any more).
    pub fn file_changed_event(&self, observed: Option<&FileObservation>) -> (r: FileChangeEvent)
        ensures
            r == change_of(self@, match observed {
                Some(o) => Some(o@),
                None => None,
            }),
    {
        match observed {
            None => FileChangeEvent::Deleted,
            Some(o) => if o.size != self.file_size || o.modified != self.last_modified {
                FileChangeEvent::Modified
            } else {
                FileChangeEvent::NoChange
            },
        }
    }
}

} // verus!
