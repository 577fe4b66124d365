use vstd::prelude::*;
use crate::record::{
    FileChangeEvent, FileObservation, FileRecord, IndexItem, Observed, observations_of, records_of,
};
use crate::groups::{
    bucket_of, bucket_upto, fingerprinted, work_upto, class_copies, class_copies_upto, find_record, first_of_size,
    groups_upto, opens_class, lemma_find_record, pending_upto, redundancy_groups, same_content,
    shares_size, sizes_upto, with_fingerprint,
};
use crate::scan::{
    discovered, find_listed, kept, lemma_scanned_unique, moved,
    observed_at, recorded, refreshed_upto, scanned, unique_paths, horizons_bounded, lemma_scanned_bounded,
};

verus! {

/// One named root directory and the records of the regular files under it.
///
/// `paths` is the path index: one record per relative path, in the order in which
/// the files were taken in. The size buckets are the views of it by size: the bucket
/// of a size holds the records of that size, in that same order.
#[derive(Debug, Clone, PartialEq, Eq)]
pub struct Tag {
    /// Absolute path of the root directory.
    pub abs_path: String,
    /// Label chosen by the operator.
    pub name: String,
    /// The records, no two with the same relative path.
    pub paths: Vec<IndexItem>,
}

/// Position of the first entry of `listing` whose path is `path`.
fn locate(listing: &Vec<FileObservation>, path: &String) -> (r: Option<usize>)
    ensures
        match r {
            Some(k) => k < listing@.len() && k as int == find_listed(observations_of(listing@), path@, 0),
            None => find_listed(observations_of(listing@), path@, 0) == -1,
        },
{
    let ghost l = observations_of(listing@);
    let mut k: usize = 0;
    while k < listing.len()
        invariant
            k <= listing.len(),
            l == observations_of(listing@),
            find_listed(l, path@, 0) == find_listed(l, path@, k as int),
        decreases listing.len() - k,
    {
        if listing[k].relative_path == *path {
            return Some(k);
        }
        k = k + 1;
    }
    None
}

/// Whether `path` is one of `paths`.
fn holds_string(paths: &Vec<String>, path: &String) -> (r: bool)
    ensures
        r == paths_of(paths@).contains(path@),
{
    let mut i: usize = 0;
    while i < paths.len()
        invariant
            i <= paths@.len(),
            forall|j: int| 0 <= j < i ==> paths_of(paths@)[j] != path@,
        decreases paths.len() - i,
    {
        if paths[i] == *path {
            assert(paths_of(paths@)[i as int] == path@);
            return true;
        }
        i = i + 1;
    }
    false
}

/// Whether one of `items` has relative path `path`.
fn holds_path(items: &Vec<IndexItem>, path: &String) -> (r: bool)
    ensures
        r == recorded(records_of(items@), path@),
{
    let ghost s = records_of(items@);
    let mut i: usize = 0;
    while i < items.len()
        invariant
            i <= items.len(),
            s == records_of(items@),
            forall|j: int| 0 <= j < i ==> s[j].path != path@,
        decreases items.len() - i,
    {
        if items[i].file_path == *path {
            assert(s[i as int].path == path@);
            return true;
        }
        i = i + 1;
    }
    false
}

/// The models of a list of redundancy groups.
pub open spec fn groups_of(v: Seq<Vec<IndexItem>>) -> Seq<Seq<FileRecord>> {
    v.map_values(|g: Vec<IndexItem>| records_of(g@))
}

/// The models of a list of paths.
pub open spec fn paths_of(v: Seq<String>) -> Seq<Seq<char>> {
    v.map_values(|p: String| p@)
}

impl Tag {
    /// The model of the tag: its records in order.
    pub open spec fn view(&self) -> Seq<FileRecord> {
        records_of(self.paths@)
    }

    /// Every relative path has at most one record, and no fingerprint claims to cover
    /// more bytes than its file holds.
    pub open spec fn wf(&self) -> bool {
        unique_paths(self@) && horizons_bounded(self@)
    }

    /// An empty tag named `name` over the directory at `abs_path`.
    pub fn new(name: &str, abs_path: &str) -> (r: Tag)
        ensures
            r.name@ == name@,
            r.abs_path@ == abs_path@,
            r@.len() == 0,
            r.wf(),
    {
        Tag { abs_path: abs_path.to_owned(), name: name.to_owned(), paths: Vec::new() }
    }

    /// Reconciles the records with `listing`, what a walk of the root directory saw
    /// of its regular files.
    ///
    /// First every record is compared with the listing: a record whose file is gone is
    /// removed; one whose file changed at the same size keeps its place but loses its
    /// fingerprint; one whose file changed size is taken out and re-inserted under the
    /// new size; the others stay as they are. Then each listed file without a record gets
    /// one. No file is read here. The result lists, in record order, the paths whose
    /// fingerprint must now be computed: the records whose file changed at the same size,
    /// and those that `pending` reports.
    pub fn index(&mut self, listing: &Vec<FileObservation>) -> (r: Vec<String>)
        requires
            old(self).wf(),
        ensures
            final(self).wf(),
            paths_of(r@) == work_upto(
                final(self)@,
                refreshed_upto(old(self)@, observations_of(listing@), old(self)@.len() as int),
                final(self)@.len() as int,
            ),
            final(self)@ == scanned(old(self)@, observations_of(listing@)),
            final(self).name == old(self).name,
            final(self).abs_path == old(self).abs_path,
    {
        let ghost s = self@;
        let ghost l = observations_of(listing@);
        let n = self.paths.len();
        let mut stay: Vec<IndexItem> = Vec::new();
        let mut grown: Vec<IndexItem> = Vec::new();
        let mut forced: Vec<String> = Vec::new();
        let mut i: usize = 0;
        while i < n
            invariant
                n == self.paths.len(),
                s == self@,
                l == observations_of(listing@),
                i <= n,
                records_of(stay@) == kept(s.take(i as int), l),
                records_of(grown@) == moved(s.take(i as int), l),
                paths_of(forced@) == refreshed_upto(s, l, i as int),
            decreases n - i,
        {
            let item = &self.paths[i];
            let found = locate(listing, &item.file_path);
            let seen: Option<&FileObservation> = match found {
                Some(k) => Some(&listing[k]),
                None => None,
            };
            proof {
                if let Some(k) = found {
                    assert(l[k as int] == listing@[k as int]@);
                }
                assert(s.take(i + 1).drop_last() == s.take(i as int));
                assert(s.take(i + 1).last() == item@);
                assert(observed_at(l, item@.path) == match seen {
                    Some(o) => Some(o@),
                    None => None::<Observed>,
                });
            }
            match item.file_changed_event(seen) {
                FileChangeEvent::Deleted => {},
                FileChangeEvent::Modified => {
                    if let Some(o) = seen {
                        if o.size == item.file_size {
                            let mut changed = item.duplicate();
                            changed.hash = 0;
                            changed.hash_stopped_at = 0;
                            changed.last_modified = o.modified;
                            stay.push(changed);
                            forced.push(item.file_path.clone());
                        } else {
                            grown.push(IndexItem::new(o));
                        }
                    }
                },
                FileChangeEvent::NoChange => {
                    stay.push(item.duplicate());
                },
                FileChangeEvent::Created => {
                    proof {
                        assert(false);
                    }
                },
            }
            proof {
                assert(records_of(stay@) =~= kept(s.take(i + 1), l));
                assert(records_of(grown@) =~= moved(s.take(i + 1), l));
                assert(paths_of(forced@) =~= refreshed_upto(s, l, i + 1));
            }
            i = i + 1;
        }
        assert(s.take(n as int) == s);
        let mut found_new: Vec<IndexItem> = Vec::new();
        let mut j: usize = 0;
        while j < listing.len()
            invariant
                s == self@,
                l == observations_of(listing@),
                j <= listing.len(),
                records_of(found_new@) == discovered(s, l, j as int),
            decreases listing.len() - j,
        {
            let o = &listing[j];
            let known = holds_path(&self.paths, &o.relative_path);
            let first = locate(listing, &o.relative_path);
            if !known && first == Some(j) {
                found_new.push(IndexItem::new(o));
            }
            proof {
                assert(records_of(found_new@) =~= discovered(s, l, j + 1));
            }
            j = j + 1;
        }
        stay.append(&mut grown);
        stay.append(&mut found_new);
        self.paths = stay;
        proof {
            assert(self@ =~= scanned(s, l));
            lemma_scanned_unique(s, l);
            lemma_scanned_bounded(s, l);
        }
        let ghost t = self@;
        let ghost f = paths_of(forced@);
        let mut work: Vec<String> = Vec::new();
        let mut k: usize = 0;
        while k < self.paths.len()
            invariant
                t == self@,
                f == paths_of(forced@),
                k <= t.len(),
                paths_of(work@) == work_upto(t, f, k as int),
            decreases self.paths.len() - k,
        {
            if (self.paths[k].hash_stopped_at < self.paths[k].file_size && self.size_collides(k))
                || holds_string(&forced, &self.paths[k].file_path) {
                work.push(self.paths[k].file_path.clone());
            }
            assert(paths_of(work@) =~= work_upto(t, f, k + 1));
            k = k + 1;
        }
        work
    }

    /// Whether record `i` shares its size with another record.
    fn size_collides(&self, i: usize) -> (r: bool)
        requires
            i < self@.len(),
        ensures
            r == shares_size(self@, i as int),
    {
        let ghost s = self@;
        let mut j: usize = 0;
        while j < self.paths.len()
            invariant
                s == self@,
                i < s.len(),
                j <= s.len(),
                forall|k: int| 0 <= k < j && k != i ==> s[k].size != s[i as int].size,
            decreases self.paths.len() - j,
        {
            if j != i && self.paths[j].file_size == self.paths[i].file_size {
                assert(s[j as int].size == s[i as int].size);
                return true;
            }
            j = j + 1;
        }
        false
    }

    /// The relative paths of the records that must be fingerprinted, in record order:
    /// those whose size is shared by another record and whose fingerprint does not
    /// cover the whole file.
    pub fn pending(&self) -> (r: Vec<String>)
        ensures
            paths_of(r@) == pending_upto(self@, self@.len() as int),
    {
        let ghost s = self@;
        let mut r: Vec<String> = Vec::new();
        let mut i: usize = 0;
        while i < self.paths.len()
            invariant
                s == self@,
                i <= s.len(),
                paths_of(r@) == pending_upto(s, i as int),
            decreases self.paths.len() - i,
        {
            if self.paths[i].hash_stopped_at < self.paths[i].file_size && self.size_collides(i) {
                r.push(self.paths[i].file_path.clone());
            }
            assert(paths_of(r@) =~= pending_upto(s, i + 1));
            i = i + 1;
        }
        r
    }

    /// Stores `fingerprint`, the fingerprint of the whole file at relative path `path`,
    /// in its record. Returns false, and changes nothing, when no record has that path.
    pub fn record_fingerprint(&mut self, path: &String, fingerprint: u64) -> (r: bool)
        requires
            old(self).wf(),
        ensures
            final(self).wf(),
            final(self).name == old(self).name,
            final(self).abs_path == old(self).abs_path,
            r == (find_record(old(self)@, path@, 0) >= 0),
            final(self)@ == fingerprinted(old(self)@, path@, fingerprint),
    {
        let ghost s = self@;
        proof {
            lemma_find_record(s, path@, 0);
        }
        let mut i: usize = 0;
        while i < self.paths.len()
            invariant
                s == self@,
                s == old(self)@,
                unique_paths(s),
                horizons_bounded(s),
                self.name == old(self).name,
                self.abs_path == old(self).abs_path,
                i <= s.len(),
                find_record(s, path@, 0) == find_record(s, path@, i as int),
            decreases self.paths.len() - i,
        {
            if self.paths[i].file_path == *path {
                let mut item = self.paths[i].duplicate();
                item.hash = fingerprint;
                item.hash_stopped_at = item.file_size;
                self.paths.set(i, item);
                proof {
                    assert(self@ =~= s.update(i as int, with_fingerprint(s[i as int], fingerprint)));
                    assert forall|a: int, b: int| 0 <= a < self@.len() && 0 <= b < self@.len() && a != b
                        implies self@[a].path != self@[b].path by {
                        assert(s[a].path == self@[a].path && s[b].path == self@[b].path);
                    }
                    assert forall|a: int| 0 <= a < self@.len() implies #[trigger] self@[a].horizon <= self@[a].size by {
                        if a != i {
                            assert(self@[a] == s[a]);
                        }
                    }
                }
                return true;
            }
            i = i + 1;
        }
        false
    }

    /// The records of the size bucket of `size`, in order.
    pub fn bucket(&self, size: u64) -> (r: Vec<IndexItem>)
        ensures
            records_of(r@) == bucket_of(self@, size),
    {
        let ghost s = self@;
        let mut r: Vec<IndexItem> = Vec::new();
        let mut i: usize = 0;
        while i < self.paths.len()
            invariant
                s == self@,
                i <= s.len(),
                records_of(r@) == bucket_upto(s, size, i as int),
            decreases self.paths.len() - i,
        {
            if self.paths[i].file_size == size {
                r.push(self.paths[i].duplicate());
            }
            assert(records_of(r@) =~= bucket_upto(s, size, i + 1));
            i = i + 1;
        }
        r
    }

    /// Whether record `i` is the first of its size.
    fn opens_bucket(&self, i: usize) -> (r: bool)
        requires
            i < self@.len(),
        ensures
            r == first_of_size(self@, i as int),
    {
        let ghost s = self@;
        let mut j: usize = 0;
        while j < i
            invariant
                s == self@,
                i < s.len(),
                j <= i,
                forall|k: int| 0 <= k < j ==> s[k].size != s[i as int].size,
            decreases i - j,
        {
            if self.paths[j].file_size == self.paths[i].file_size {
                assert(s[j as int].size == s[i as int].size);
                return false;
            }
            j = j + 1;
        }
        true
    }

    /// The number of size buckets: of distinct sizes among the records.
    pub fn bucket_count(&self) -> (r: usize)
        ensures
            r == sizes_upto(self@, self@.len() as int),
    {
        let ghost s = self@;
        let mut r: usize = 0;
        let mut i: usize = 0;
        while i < self.paths.len()
            invariant
                s == self@,
                i <= s.len(),
                r == sizes_upto(s, i as int),
                r <= i,
            decreases self.paths.len() - i,
        {
            if self.opens_bucket(i) {
                r = r + 1;
            }
            i = i + 1;
        }
        r
    }

    /// Whether record `i` opens a content class.
    fn opens_class_at(&self, i: usize) -> (r: bool)
        requires
            i < self@.len(),
        ensures
            r == opens_class(self@, i as int),
    {
        let ghost s = self@;
        let it = &self.paths[i];
        if it.hash_stopped_at != it.file_size {
            return false;
        }
        let mut j: usize = 0;
        while j < i
            invariant
                s == self@,
                i < s.len(),
                j <= i,
                s[i as int].horizon == s[i as int].size,
                forall|k: int| 0 <= k < j ==> !same_content(#[trigger] s[k], s[i as int]),
            decreases i - j,
        {
            let o = &self.paths[j];
            if o.file_size == self.paths[i].file_size && o.hash == self.paths[i].hash
                && o.hash_stopped_at == self.paths[i].hash_stopped_at {
                assert(same_content(s[j as int], s[i as int]));
                return false;
            }
            j = j + 1;
        }
        true
    }

    /// The later members of the class that record `o` opens, in order.
    fn copies_in_class(&self, o: usize) -> (r: Vec<IndexItem>)
        requires
            o < self@.len(),
        ensures
            records_of(r@) == class_copies(self@, o as int),
    {
        let ghost s = self@;
        let first = &self.paths[o];
        let mut r: Vec<IndexItem> = Vec::new();
        let mut i: usize = 0;
        while i < self.paths.len()
            invariant
                s == self@,
                o < s.len(),
                *first == self.paths@[o as int],
                i <= s.len(),
                records_of(r@) == class_copies_upto(s, o as int, i as int),
            decreases self.paths.len() - i,
        {
            let it = &self.paths[i];
            if i > o && it.file_size == first.file_size && it.hash == first.hash
                && it.hash_stopped_at == first.hash_stopped_at {
                r.push(it.duplicate());
            }
            assert(records_of(r@) =~= class_copies_upto(s, o as int, i + 1));
            i = i + 1;
        }
        r
    }

    /// The redundancies within the tag. Within each size bucket, records are grouped by
    /// fingerprint and horizon, among the fully hashed ones; the first record of each such
    /// class is the one kept, and every later record of the class is a copy of it. The
    /// result holds one group for each class with a copy, listing its copies in order;
    /// groups come in the order of the records that open their classes.
    pub fn redundancies(&self) -> (r: Vec<Vec<IndexItem>>)
        ensures
            groups_of(r@) == redundancy_groups(self@),
    {
        let ghost s = self@;
        let mut r: Vec<Vec<IndexItem>> = Vec::new();
        let mut i: usize = 0;
        while i < self.paths.len()
            invariant
                s == self@,
                i <= s.len(),
                groups_of(r@) == groups_upto(s, i as int),
            decreases self.paths.len() - i,
        {
            if self.opens_class_at(i) {
                let g = self.copies_in_class(i);
                if g.len() > 0 {
                    r.push(g);
                }
            }
            assert(groups_of(r@) =~= groups_upto(s, i + 1));
            i = i + 1;
        }
        r
    }

    /// Whether the tag is well formed; a tag read back from storage is checked with it.
    pub fn check_wf(&self) -> (r: bool)
        ensures
            r == self.wf(),
    {
        let ghost s = self@;
        let n = self.paths.len();
        let mut i: usize = 0;
        while i < n
            invariant
                s == self@,
                n == s.len(),
                i <= n,
                forall|a: int| 0 <= a < i ==> #[trigger] s[a].horizon <= s[a].size,
                forall|a: int, b: int| 0 <= a < i && 0 <= b < n && a != b ==> s[a].path != s[b].path,
            decreases n - i,
        {
            if self.paths[i].hash_stopped_at > self.paths[i].file_size {
                assert(s[i as int].horizon > s[i as int].size);
                return false;
            }
            let mut j: usize = 0;
            while j < n
                invariant
                    s == self@,
                    n == s.len(),
                    i < n,
                    j <= n,
                    forall|b: int| 0 <= b < j && b != i ==> s[i as int].path != s[b].path,
                decreases n - j,
            {
                if j != i && self.paths[i].file_path == self.paths[j].file_path {
                    assert(s[i as int].path == s[j as int].path);
                    return false;
                }
                j = j + 1;
            }
            i = i + 1;
        }
        true
    }
}

} // verus!
