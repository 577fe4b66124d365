use vstd::prelude::*;
use crate::record::{FileRecord, fully_hashed};
use crate::scan::{first_index, lemma_first_index};

verus! {

/// The paths of a tag's records, in order.
pub open spec fn record_paths(s: Seq<FileRecord>) -> Seq<Seq<char>> {
    s.map_values(|r: FileRecord| r.path)
}

/// Index of the first record at or after `k` whose path is `p`, or -1.
pub open spec fn find_record(s: Seq<FileRecord>, p: Seq<char>, k: int) -> int {
    first_index(record_paths(s), p, k)
}

/// Record `i` shares its size with another record of the tag.
pub open spec fn shares_size(s: Seq<FileRecord>, i: int) -> bool {
    exists|j: int| 0 <= j < s.len() && j != i && #[trigger] s[j].size == s[i].size
}

/// Record `i` must be fingerprinted: its size collides and its fingerprint does not
/// cover the whole file.
pub open spec fn needs_fingerprint(s: Seq<FileRecord>, i: int) -> bool {
    s[i].horizon < s[i].size && shares_size(s, i)
}

/// The paths of the records among the first `n` that must be fingerprinted, in order.
pub open spec fn pending_upto(s: Seq<FileRecord>, n: int) -> Seq<Seq<char>>
    decreases n,
{
    if n <= 0 || n > s.len() {
        seq![]
    } else if needs_fingerprint(s, n - 1) {
        pending_upto(s, n - 1).push(s[n - 1].path)
    } else {
        pending_upto(s, n - 1)
    }
}

/// The paths among the first `n` records that must be fingerprinted after a scan: those
/// whose size collides while unhashed, and those whose file changed (listed in `forced`).
pub open spec fn work_upto(s: Seq<FileRecord>, forced: Seq<Seq<char>>, n: int) -> Seq<Seq<char>>
    decreases n,
{
    if n <= 0 || n > s.len() {
        seq![]
    } else if needs_fingerprint(s, n - 1) || forced.contains(s[n - 1].path) {
        work_upto(s, forced, n - 1).push(s[n - 1].path)
    } else {
        work_upto(s, forced, n - 1)
    }
}

/// The record with a fingerprint of its full content.
pub open spec fn with_fingerprint(r: FileRecord, fingerprint: u64) -> FileRecord {
    FileRecord { fingerprint, horizon: r.size, ..r }
}

/// The records after storing fingerprint `fingerprint` for the file at path `p`: the
/// first record with that path becomes fully hashed; without one nothing changes.
pub open spec fn fingerprinted(s: Seq<FileRecord>, p: Seq<char>, fingerprint: u64) -> Seq<FileRecord> {
    let k = find_record(s, p, 0);
    if k >= 0 {
        s.update(k, with_fingerprint(s[k], fingerprint))
    } else {
        s
    }
}

/// The records after storing, path after path of `ps`, the fingerprint `fp` gives for it.
pub open spec fn fingerprinted_all(s: Seq<FileRecord>, ps: Seq<Seq<char>>, fp: spec_fn(Seq<char>) -> u64) -> Seq<FileRecord>
    decreases ps.len(),
{
    if ps.len() == 0 {
        s
    } else {
        fingerprinted(fingerprinted_all(s, ps.drop_last(), fp), ps.last(), fp(ps.last()))
    }
}

/// The records of size `size` among the first `n`, in order.
pub open spec fn bucket_upto(s: Seq<FileRecord>, size: u64, n: int) -> Seq<FileRecord>
    decreases n,
{
    if n <= 0 || n > s.len() {
        seq![]
    } else if s[n - 1].size == size {
        bucket_upto(s, size, n - 1).push(s[n - 1])
    } else {
        bucket_upto(s, size, n - 1)
    }
}

/// The size bucket of `size`: the records of that size, in order.
pub open spec fn bucket_of(s: Seq<FileRecord>, size: u64) -> Seq<FileRecord> {
    bucket_upto(s, size, s.len() as int)
}

/// Record `i` is the first of its size.
pub open spec fn first_of_size(s: Seq<FileRecord>, i: int) -> bool {
    forall|j: int| 0 <= j < i ==> #[trigger] s[j].size != s[i].size
}

/// The number of distinct sizes among the first `n` records.
pub open spec fn sizes_upto(s: Seq<FileRecord>, n: int) -> nat
    decreases n,
{
    if n <= 0 || n > s.len() {
        0
    } else if first_of_size(s, n - 1) {
        sizes_upto(s, n - 1) + 1
    } else {
        sizes_upto(s, n - 1)
    }
}

/// Two records of one bucket that were hashed to the same fingerprint and horizon.
pub open spec fn same_content(a: FileRecord, b: FileRecord) -> bool {
    a.size == b.size && a.fingerprint == b.fingerprint && a.horizon == b.horizon
}

/// Record `i` is a redundant copy: it is fully hashed and an earlier record of its
/// bucket has the same fingerprint and horizon.
pub open spec fn is_copy(s: Seq<FileRecord>, i: int) -> bool {
    fully_hashed(s[i]) && exists|j: int| 0 <= j < i && #[trigger] same_content(s[j], s[i])
}

/// Record `i` opens a content class: it is fully hashed and no earlier record has its
/// size, fingerprint and horizon.
pub open spec fn opens_class(s: Seq<FileRecord>, i: int) -> bool {
    fully_hashed(s[i]) && forall|j: int| 0 <= j < i ==> !same_content(#[trigger] s[j], s[i])
}

/// The later members, among the first `n` records, of the class that record `o` opens, in order.
pub open spec fn class_copies_upto(s: Seq<FileRecord>, o: int, n: int) -> Seq<FileRecord>
    decreases n,
{
    if n <= 0 || n > s.len() {
        seq![]
    } else if n - 1 > o && same_content(s[o], s[n - 1]) {
        class_copies_upto(s, o, n - 1).push(s[n - 1])
    } else {
        class_copies_upto(s, o, n - 1)
    }
}

/// The redundant copies of the class that record `o` opens.
pub open spec fn class_copies(s: Seq<FileRecord>, o: int) -> Seq<FileRecord> {
    class_copies_upto(s, o, s.len() as int)
}

/// The redundancy groups of the classes opened among the first `n` records: one group for
/// each class (size, fingerprint, horizon) with a later member, holding its later members
/// in order; groups in the order of the records that open their classes.
pub open spec fn groups_upto(s: Seq<FileRecord>, n: int) -> Seq<Seq<FileRecord>>
    decreases n,
{
    if n <= 0 || n > s.len() {
        seq![]
    } else if opens_class(s, n - 1) && class_copies(s, n - 1).len() > 0 {
        groups_upto(s, n - 1).push(class_copies(s, n - 1))
    } else {
        groups_upto(s, n - 1)
    }
}

/// The redundancy groups of a tag.
pub open spec fn redundancy_groups(s: Seq<FileRecord>) -> Seq<Seq<FileRecord>> {
    groups_upto(s, s.len() as int)
}

/// What `find_record` finds, in terms of the records.
pub proof fn lemma_find_record(s: Seq<FileRecord>, p: Seq<char>, k: int)
    requires
        0 <= k,
    ensures
        ({
            let r = find_record(s, p, k);
            &&& r == -1 || (k <= r < s.len() && s[r].path == p)
            &&& forall|j: int| k <= j < s.len() && (r == -1 || j < r) ==> s[j].path != p
        }),
{
    lemma_first_index(record_paths(s), p, k);
    assert forall|j: int| 0 <= j < s.len() implies #[trigger] s[j].path == record_paths(s)[j] by {}
}

} // verus!
