use vstd::prelude::*;
use crate::groups::{redundancy_groups, work_upto};
use crate::record::{FileObservation, FileRecord, IndexItem, fully_hashed, observations_of, records_of};
use crate::scan::{first_index, lemma_first_index, refreshed_upto, scanned};
use crate::tag::{Tag, groups_of, paths_of};

verus! {

/// Why the index refused a request.
#[derive(Debug, Clone, Copy, PartialEq, Eq)]
pub enum IndexError {
    /// A tag of that name exists already, over another root directory.
    TagNameTaken,
}

/// The index of this machine: its tags, in the order of their creation.
#[derive(Debug, Clone, PartialEq, Eq)]
pub struct LocalIndex {
    pub tags: Vec<Tag>,
}

/// The records of the first `n` tags, tag after tag.
pub open spec fn all_records(tags: Seq<Tag>, n: int) -> Seq<FileRecord>
    decreases n,
{
    if n <= 0 || n > tags.len() {
        seq![]
    } else {
        all_records(tags, n - 1) + tags[n - 1]@
    }
}

/// The records among the first `n` of `s` that are fully hashed to `fingerprint` at size `size`.
pub open spec fn matching_upto(s: Seq<FileRecord>, size: u64, fingerprint: u64, n: int) -> Seq<FileRecord>
    decreases n,
{
    if n <= 0 || n > s.len() {
        seq![]
    } else if s[n - 1].size == size && fully_hashed(s[n - 1]) && s[n - 1].fingerprint == fingerprint {
        matching_upto(s, size, fingerprint, n - 1).push(s[n - 1])
    } else {
        matching_upto(s, size, fingerprint, n - 1)
    }
}

/// The names of a list of tags, in order.
pub open spec fn tag_names(tags: Seq<Tag>) -> Seq<Seq<char>> {
    tags.map_values(|t: Tag| t.name@)
}

/// Position of the first tag named `name` at or after `k` among `tags`, or -1.
pub open spec fn tag_named(tags: Seq<Tag>, name: Seq<char>, k: int) -> int {
    first_index(tag_names(tags), name, k)
}

/// What `tag_named` finds, in terms of the tags.
pub proof fn lemma_tag_named(tags: Seq<Tag>, name: Seq<char>, k: int)
    requires
        0 <= k,
    ensures
        ({
            let r = tag_named(tags, name, k);
            &&& r == -1 || (k <= r < tags.len() && tags[r].name@ == name)
            &&& forall|j: int| k <= j < tags.len() && (r == -1 || j < r) ==> tags[j].name@ != name
        }),
{
    lemma_first_index(tag_names(tags), name, k);
    assert forall|j: int| 0 <= j < tags.len() implies #[trigger] tags[j].name@ == tag_names(tags)[j] by {}
}

impl LocalIndex {
    /// The records of all tags, tag after tag.
    pub open spec fn records(&self) -> Seq<FileRecord> {
        all_records(self.tags@, self.tags@.len() as int)
    }

    /// Every tag is well formed and no two tags share a name.
    pub open spec fn wf(&self) -> bool {
        &&& forall|i: int| 0 <= i < self.tags@.len() ==> (#[trigger] self.tags@[i]).wf()
        &&& forall|i: int, j: int| 0 <= i < self.tags@.len() && 0 <= j < self.tags@.len() && i != j
            ==> self.tags@[i].name@ != self.tags@[j].name@
    }

    /// An index without tags.
    pub fn new() -> (r: LocalIndex)
        ensures
            r.tags@.len() == 0,
            r.wf(),
    {
        LocalIndex { tags: Vec::new() }
    }

    /// Creates the tag `tag_name` over the directory at absolute path `abs_path` and scans
    /// it against `listing`, what a walk of that directory saw. A tag of that name over the
    /// same directory is scanned again instead; one over another directory is an error.
    /// Returns the position of the tag.
    pub fn new_tag(&mut self, tag_name: &str, abs_path: &str, listing: &Vec<FileObservation>) -> (r: Result<(usize, Vec<String>), IndexError>)
        requires
            old(self).wf(),
        ensures
            final(self).wf(),
            tag_named(old(self).tags@, tag_name@, 0) < 0 ==> {
                &&& r is Ok
                &&& r->Ok_0.0 == old(self).tags@.len()
                &&& paths_of(r->Ok_0.1@) == work_upto(final(self).tags@.last()@,
                    refreshed_upto(seq![], observations_of(listing@), 0), final(self).tags@.last()@.len() as int)
                &&& final(self).tags@.len() == old(self).tags@.len() + 1
                &&& final(self).tags@.take(old(self).tags@.len() as int) == old(self).tags@
                &&& final(self).tags@.last().name@ == tag_name@
                &&& final(self).tags@.last().abs_path@ == abs_path@
                &&& final(self).tags@.last()@ == scanned(seq![], observations_of(listing@))
            },
            ({
                let k = tag_named(old(self).tags@, tag_name@, 0);
                k >= 0 && old(self).tags@[k].abs_path@ == abs_path@ ==> {
                    &&& r is Ok
                    &&& r->Ok_0.0 == k
                    &&& paths_of(r->Ok_0.1@) == work_upto(final(self).tags@[k]@,
                        refreshed_upto(old(self).tags@[k]@, observations_of(listing@), old(self).tags@[k]@.len() as int),
                        final(self).tags@[k]@.len() as int)
                    &&& final(self).tags@.len() == old(self).tags@.len()
                    &&& forall|i: int| 0 <= i < old(self).tags@.len() && i != k ==> final(self).tags@[i] == old(self).tags@[i]
                    &&& final(self).tags@[k].name == old(self).tags@[k].name
                    &&& final(self).tags@[k].abs_path == old(self).tags@[k].abs_path
                    &&& final(self).tags@[k]@ == scanned(old(self).tags@[k]@, observations_of(listing@))
                }
            }),
            ({
                let k = tag_named(old(self).tags@, tag_name@, 0);
                k >= 0 && old(self).tags@[k].abs_path@ != abs_path@ ==> {
                    &&& r == Err::<(usize, Vec<String>), IndexError>(IndexError::TagNameTaken)
                    &&& *final(self) == *old(self)
                }
            }),
    {
        let ghost k = tag_named(old(self).tags@, tag_name@, 0);
        let name = tag_name.to_owned();
        let root = abs_path.to_owned();
        let mut i: usize = 0;
        while i < self.tags.len()
            invariant
                i <= self.tags@.len(),
                *self == *old(self),
                self.wf(),
                name@ == tag_name@,
                root@ == abs_path@,
                k == tag_named(self.tags@, tag_name@, i as int),
                k == tag_named(old(self).tags@, tag_name@, 0),
            decreases self.tags.len() - i,
        {
            if self.tags[i].name == name {
                if self.tags[i].abs_path == root {
                    proof {
                        lemma_tag_named(self.tags@, tag_name@, 0);
                    }
                    let mut t = self.tags.remove(i);
                    assert(t == old(self).tags@[i as int]);
                    let work = t.index(listing);
                    self.tags.insert(i, t);
                    proof {
                        assert forall|a: int| 0 <= a < self.tags@.len() && a != i implies self.tags@[a] == old(self).tags@[a] by {
                        }
                    }
                    return Ok((i, work));
                } else {
                    return Err(IndexError::TagNameTaken);
                }
            }
            i = i + 1;
        }
        let mut t = Tag::new(tag_name, abs_path);
        assert(t@ =~= Seq::<FileRecord>::empty());
        let work = t.index(listing);
        proof {
            lemma_tag_named(self.tags@, tag_name@, 0);
        }
        self.tags.push(t);
        proof {
            assert(self.tags@.take(old(self).tags@.len() as int) =~= old(self).tags@);
            assert forall|a: int| 0 <= a < self.tags@.len() implies (#[trigger] self.tags@[a]).wf() by {
                if a < old(self).tags@.len() {
                    assert(self.tags@[a] == old(self).tags@[a]);
                }
            }
        }
        Ok((self.tags.len() - 1, work))
    }

    /// Copies of the records of all tags, tag after tag.
    fn all_items(&self) -> (r: Vec<IndexItem>)
        ensures
            records_of(r@) == self.records(),
    {
        let mut r: Vec<IndexItem> = Vec::new();
        let mut t: usize = 0;
        while t < self.tags.len()
            invariant
                t <= self.tags@.len(),
                records_of(r@) == all_records(self.tags@, t as int),
            decreases self.tags.len() - t,
        {
            let tag = &self.tags[t];
            let ghost base = records_of(r@);
            let mut i: usize = 0;
            while i < tag.paths.len()
                invariant
                    t < self.tags@.len(),
                    *tag == self.tags@[t as int],
                    base == all_records(self.tags@, t as int),
                    i <= tag@.len(),
                    records_of(r@) == base + tag@.take(i as int),
                decreases tag.paths.len() - i,
            {
                let item = tag.paths[i].duplicate();
                let ghost before = r@;
                r.push(item);
                proof {
                    let want = base + tag@.take(i + 1);
                    assert(records_of(before).len() == before.len());
                    assert forall|j: int| 0 <= j < r@.len() implies records_of(r@)[j] == want[j] by {
                        if j < before.len() {
                            assert(records_of(before)[j] == before[j]@);
                        }
                    }
                    assert(records_of(r@) =~= want);
                }
                i = i + 1;
            }
            assert(tag@.take(i as int) =~= tag@);
            t = t + 1;
        }
        r
    }

    /// The redundancies across all tags: the grouping of `Tag::redundancies` applied to
    /// the records of all tags taken together, tag after tag. A content class (size,
    /// fingerprint, horizon) then spans every tag, and the first of its records in that
    /// order is the one kept.
    pub fn redundancies(&self) -> (r: Vec<Vec<IndexItem>>)
        ensures
            groups_of(r@) == redundancy_groups(self.records()),
    {
        let all = self.all_items();
        let joined = Tag { abs_path: String::new(), name: String::new(), paths: all };
        joined.redundancies()
    }

    /// The records, over all tags, of the files identical to an outside file of size
    /// `size` whose fingerprint is `fingerprint`: those fully hashed to that fingerprint at
    /// that size. Empty when no tag holds a file of that size.
    pub fn find_matching(&self, size: u64, fingerprint: u64) -> (r: Vec<IndexItem>)
        ensures
            records_of(r@) == matching_upto(self.records(), size, fingerprint, self.records().len() as int),
    {
        let all = self.all_items();
        let ghost s = records_of(all@);
        let mut r: Vec<IndexItem> = Vec::new();
        let mut i: usize = 0;
        while i < all.len()
            invariant
                s == records_of(all@),
                i <= s.len(),
                records_of(r@) == matching_upto(s, size, fingerprint, i as int),
            decreases all.len() - i,
        {
            let it = &all[i];
            if it.file_size == size && it.hash_stopped_at == it.file_size && it.hash == fingerprint {
                r.push(it.duplicate());
            }
            assert(records_of(r@) =~= matching_upto(s, size, fingerprint, i + 1));
            i = i + 1;
        }
        r
    }

    /// Whether the index is well formed; an index read back from storage is checked with it.
    pub fn check_wf(&self) -> (r: bool)
        ensures
            r == self.wf(),
    {
        let n = self.tags.len();
        let mut i: usize = 0;
        while i < n
            invariant
                n == self.tags@.len(),
                i <= n,
                forall|a: int| 0 <= a < i ==> (#[trigger] self.tags@[a]).wf(),
                forall|a: int, b: int| 0 <= a < i && 0 <= b < n && a != b
                    ==> self.tags@[a].name@ != self.tags@[b].name@,
            decreases n - i,
        {
            if !self.tags[i].check_wf() {
                return false;
            }
            let mut j: usize = 0;
            while j < n
                invariant
                    n == self.tags@.len(),
                    i < n,
                    j <= n,
                    forall|b: int| 0 <= b < j && b != i ==> self.tags@[i as int].name@ != self.tags@[b].name@,
                decreases n - j,
            {
                if j != i && self.tags[i].name == self.tags[j].name {
                    return false;
                }
                j = j + 1;
            }
            i = i + 1;
        }
        true
    }
}

} // verus!
