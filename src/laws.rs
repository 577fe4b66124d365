use vstd::prelude::*;
use crate::fingerprint::xxh64_of;
use crate::groups::{
    with_fingerprint, fingerprinted, fingerprinted_all, find_record, lemma_find_record, work_upto,
    bucket_of, bucket_upto, class_copies, class_copies_upto, first_of_size, groups_upto, is_copy,
    opens_class,
    needs_fingerprint, pending_upto, redundancy_groups, same_content, shares_size, sizes_upto,
};
use crate::record::{FileRecord, Observed, fresh_record, fully_hashed};
use crate::scan::{
    discovered, find_listed, horizons_bounded, in_sync, is_new_entry, kept, kept_record,
    lemma_find_listed, lemma_observed_at, moved, observed_at, recorded, records_match, scanned,
    unique_paths, refreshed_upto,
    lemma_kept_origin, lemma_moved_origin, lemma_discovered_origin, discovered_from,
};

verus! {

/// Two records of one size whose contents were identical: the redundancy detection
/// reports one group, holding the second record alone.
pub proof fn identical_pair_is_one_group(s: Seq<FileRecord>, first: Seq<u8>, second: Seq<u8>)
    requires
        s.len() == 2,
        s[0].size == s[1].size,
        fully_hashed(s[0]),
        fully_hashed(s[1]),
        s[0].fingerprint == xxh64_of(first),
        s[1].fingerprint == xxh64_of(second),
        first == second,
    ensures
        redundancy_groups(s) == seq![seq![s[1]]],
{
    assert(same_content(s[0], s[1]));
    assert(opens_class(s, 0));
    assert(!opens_class(s, 1));
    assert(class_copies_upto(s, 0, 0) =~= seq![]);
    assert(class_copies_upto(s, 0, 1) =~= seq![]);
    assert(class_copies(s, 0) =~= seq![s[1]]);
    assert(groups_upto(s, 0) =~= seq![]);
    assert(groups_upto(s, 1) =~= seq![seq![s[1]]]);
    assert(groups_upto(s, 2) =~= seq![seq![s[1]]]);
}

/// Two records of one size whose fingerprints differ: no redundancy group.
pub proof fn distinct_pair_has_no_group(s: Seq<FileRecord>)
    requires
        s.len() == 2,
        s[0].size == s[1].size,
        s[0].fingerprint != s[1].fingerprint,
    ensures
        redundancy_groups(s) == Seq::<Seq<FileRecord>>::empty(),
{
    assert(!same_content(s[0], s[1]));
    assert(class_copies_upto(s, 0, 0) =~= seq![]);
    assert(class_copies_upto(s, 0, 1) =~= seq![]);
    assert(class_copies(s, 0) =~= seq![]);
    assert(class_copies_upto(s, 1, 0) =~= seq![]);
    assert(class_copies_upto(s, 1, 1) =~= seq![]);
    assert(class_copies(s, 1) =~= seq![]);
    assert(groups_upto(s, 0) =~= seq![]);
    assert(groups_upto(s, 1) =~= seq![]);
    assert(groups_upto(s, 2) =~= seq![]);
}

/// `x` is one of the records of `s` that repeat an earlier record's content.
pub open spec fn is_reported_copy(s: Seq<FileRecord>, x: FileRecord) -> bool {
    exists|i: int| 0 <= i < s.len() && is_copy(s, i) && s[i] == x
}

proof fn lemma_class_members(s: Seq<FileRecord>, o: int, n: int)
    requires
        0 <= o < s.len(),
        opens_class(s, o),
        n <= s.len(),
    ensures
        forall|x: int| 0 <= x < class_copies_upto(s, o, n).len()
            ==> is_reported_copy(s, #[trigger] class_copies_upto(s, o, n)[x]),
        forall|x: int| 0 <= x < class_copies_upto(s, o, n).len()
            ==> same_content(s[o], #[trigger] class_copies_upto(s, o, n)[x]),
    decreases n,
{
    if n > 0 {
        lemma_class_members(s, o, n - 1);
        let prev = class_copies_upto(s, o, n - 1);
        let cur = class_copies_upto(s, o, n);
        assert forall|x: int| 0 <= x < cur.len() implies is_reported_copy(s, #[trigger] cur[x])
            && same_content(s[o], cur[x]) by {
            if x < prev.len() {
                assert(cur[x] == prev[x]);
            } else {
                assert(same_content(s[o], s[n - 1]));
                assert(is_copy(s, n - 1));
            }
        }
    }
}

proof fn lemma_groups_members(s: Seq<FileRecord>, n: int)
    requires
        n <= s.len(),
    ensures
        forall|g: int, x: int| 0 <= g < groups_upto(s, n).len() && 0 <= x < groups_upto(s, n)[g].len()
            ==> is_reported_copy(s, #[trigger] groups_upto(s, n)[g][x]),
    decreases n,
{
    if n > 0 {
        lemma_groups_members(s, n - 1);
        let prev = groups_upto(s, n - 1);
        let cur = groups_upto(s, n);
        if opens_class(s, n - 1) {
            lemma_class_members(s, n - 1, s.len() as int);
        }
        assert forall|g: int, x: int| 0 <= g < cur.len() && 0 <= x < cur[g].len()
            implies is_reported_copy(s, #[trigger] cur[g][x]) by {
            if g < prev.len() {
                assert(cur[g] == prev[g]);
                assert(is_reported_copy(s, prev[g][x]));
            } else {
                assert(cur[g] == class_copies(s, n - 1));
            }
        }
    }
}

/// Every member of a redundancy group is a later record of a content class, fully
/// hashed to the fingerprint and horizon of an earlier record of its bucket; so the
/// record that opens a class, or one not fully hashed, is never reported.
pub proof fn only_later_copies_are_reported(s: Seq<FileRecord>)
    requires
        unique_paths(s),
    ensures
        forall|g: int, x: int| 0 <= g < redundancy_groups(s).len() && 0 <= x < redundancy_groups(s)[g].len()
            ==> is_reported_copy(s, #[trigger] redundancy_groups(s)[g][x]),
        forall|i: int, g: int, x: int| 0 <= i < s.len() && !is_copy(s, i)
            && 0 <= g < redundancy_groups(s).len() && 0 <= x < redundancy_groups(s)[g].len()
            ==> #[trigger] redundancy_groups(s)[g][x].path != #[trigger] s[i].path,
{
    lemma_groups_members(s, s.len() as int);
    assert forall|i: int, g: int, x: int| 0 <= i < s.len() && !is_copy(s, i)
        && 0 <= g < redundancy_groups(s).len() && 0 <= x < redundancy_groups(s)[g].len()
        implies #[trigger] redundancy_groups(s)[g][x].path != #[trigger] s[i].path by {
        assert(is_reported_copy(s, redundancy_groups(s)[g][x]));
        let k = choose|k: int| 0 <= k < s.len() && is_copy(s, k) && s[k] == redundancy_groups(s)[g][x];
        assert(k != i);
    }
}

/// No two entries of a listing share a path, as in a walk of one directory tree.
pub open spec fn unique_listing(l: Seq<Observed>) -> bool {
    forall|i: int, j: int| 0 <= i < l.len() && 0 <= j < l.len() && i != j ==> l[i].path != l[j].path
}

proof fn lemma_first_entry(l: Seq<Observed>, j: int)
    requires
        unique_listing(l),
        0 <= j < l.len(),
    ensures
        find_listed(l, l[j].path, 0) == j,
{
    lemma_find_listed(l, l[j].path, 0);
}

proof fn lemma_discovered_from_empty(l: Seq<Observed>, n: int)
    requires
        unique_listing(l),
        0 <= n <= l.len(),
    ensures
        discovered(seq![], l, n) == l.take(n).map_values(|o: Observed| fresh_record(o)),
    decreases n,
{
    if n > 0 {
        lemma_discovered_from_empty(l, n - 1);
        lemma_first_entry(l, n - 1);
        assert(!recorded(seq![], l[n - 1].path));
        assert(is_new_entry(seq![], l, n - 1));
        assert(discovered(seq![], l, n) =~= l.take(n).map_values(|o: Observed| fresh_record(o)));
    } else {
        assert(discovered(seq![], l, n) =~= l.take(n).map_values(|o: Observed| fresh_record(o)));
    }
}

proof fn lemma_distinct_counts(s: Seq<FileRecord>, size: u64, n: int)
    requires
        0 <= n <= s.len(),
        forall|i: int, j: int| 0 <= i < s.len() && 0 <= j < s.len() && i != j ==> s[i].size != s[j].size,
    ensures
        sizes_upto(s, n) == n,
        pending_upto(s, n).len() == 0,
        bucket_upto(s, size, n).len() == if exists|i: int| 0 <= i < n && s[i].size == size { 1int } else { 0int },
    decreases n,
{
    if n > 0 {
        lemma_distinct_counts(s, size, n - 1);
        assert(first_of_size(s, n - 1));
        assert(!shares_size(s, n - 1));
        if s[n - 1].size == size {
            assert(!exists|i: int| 0 <= i < n - 1 && s[i].size == size);
        } else if exists|i: int| 0 <= i < n && s[i].size == size {
            let i = choose|i: int| 0 <= i < n && s[i].size == size;
            assert(i < n - 1);
        }
    }
}

/// Files of pairwise distinct sizes, scanned into an empty tag: one bucket per file, each
/// holding one record, and no record hashed or waiting for a fingerprint.
pub proof fn distinct_sizes_are_never_hashed(l: Seq<Observed>)
    requires
        unique_listing(l),
        forall|i: int, j: int| 0 <= i < l.len() && 0 <= j < l.len() && i != j ==> l[i].size != l[j].size,
    ensures
        ({
            let s = scanned(seq![], l);
            &&& s.len() == l.len()
            &&& sizes_upto(s, s.len() as int) == l.len()
            &&& forall|j: int| 0 <= j < l.len() ==> #[trigger] bucket_of(s, l[j].size).len() == 1
            &&& forall|i: int| 0 <= i < s.len() ==> #[trigger] s[i].horizon == 0
            &&& pending_upto(s, s.len() as int).len() == 0
        }),
{
    let s = scanned(seq![], l);
    assert(kept(seq![], l) =~= seq![]);
    assert(moved(seq![], l) =~= seq![]);
    lemma_discovered_from_empty(l, l.len() as int);
    assert(l.take(l.len() as int) =~= l);
    assert(s =~= l.map_values(|o: Observed| fresh_record(o)));
    assert forall|j: int| 0 <= j < l.len() implies #[trigger] bucket_of(s, l[j].size).len() == 1 by {
        lemma_distinct_counts(s, l[j].size, s.len() as int);
        assert(s[j].size == l[j].size);
    }
    lemma_distinct_counts(s, 0, s.len() as int);
}

proof fn lemma_matching_prefix(s: Seq<FileRecord>, l: Seq<Observed>)
    requires
        records_match(s, l),
    ensures
        kept(s, l) == s,
        moved(s, l) == Seq::<FileRecord>::empty(),
    decreases s.len(),
{
    if s.len() > 0 {
        let d = s.drop_last();
        assert forall|i: int| 0 <= i < d.len() implies match #[trigger] observed_at(l, d[i].path) {
            Some(o) => o.size == d[i].size && o.modified == d[i].modified,
            None => false,
        } by {
            assert(d[i] == s[i]);
        }
        lemma_matching_prefix(d, l);
        assert(s.last() == s[s.len() - 1]);
        assert(kept_record(s.last(), l) == Some(s.last()));
        assert(kept(s, l) =~= s);
    } else {
        assert(kept(s, l) =~= s);
    }
}

proof fn lemma_nothing_new(s: Seq<FileRecord>, l: Seq<Observed>, n: int)
    requires
        forall|j: int| 0 <= j < l.len() ==> #[trigger] recorded(s, l[j].path),
    ensures
        discovered(s, l, n) == Seq::<FileRecord>::empty(),
    decreases n,
{
    if n > 0 && n <= l.len() {
        lemma_nothing_new(s, l, n - 1);
        assert(recorded(s, l[n - 1].path));
    }
}

/// A tag whose records agree with the listing is left exactly as it is by a scan.
pub proof fn scan_of_synced_tag_changes_nothing(s: Seq<FileRecord>, l: Seq<Observed>)
    requires
        in_sync(s, l),
    ensures
        scanned(s, l) == s,
{
    lemma_matching_prefix(s, l);
    lemma_nothing_new(s, l, l.len() as int);
    assert(scanned(s, l) =~= s);
}

proof fn lemma_kept_complete(s: Seq<FileRecord>, l: Seq<Observed>)
    ensures
        forall|i: int| 0 <= i < s.len() && (#[trigger] kept_record(s[i], l)).is_some()
            ==> recorded(kept(s, l), s[i].path),
    decreases s.len(),
{
    if s.len() > 0 {
        let d = s.drop_last();
        lemma_kept_complete(d, l);
        let prev = kept(d, l);
        let cur = kept(s, l);
        assert forall|i: int| 0 <= i < s.len() && (#[trigger] kept_record(s[i], l)).is_some()
            implies recorded(cur, s[i].path) by {
            if i < d.len() {
                assert(d[i] == s[i]);
                assert(kept_record(d[i], l).is_some());
                let x = choose|x: int| 0 <= x < prev.len() && #[trigger] prev[x].path == d[i].path;
                assert(cur[x] == prev[x]);
            } else {
                assert(s[i] == s.last());
                assert(kept_record(s.last(), l)->Some_0.path == s[i].path);
                assert(cur[prev.len() as int].path == s[i].path);
            }
        }
    }
}

proof fn lemma_moved_complete(s: Seq<FileRecord>, l: Seq<Observed>)
    ensures
        forall|i: int| 0 <= i < s.len() && (#[trigger] observed_at(l, s[i].path)).is_some()
            && observed_at(l, s[i].path)->Some_0.size != s[i].size
            ==> recorded(moved(s, l), s[i].path),
    decreases s.len(),
{
    if s.len() > 0 {
        let d = s.drop_last();
        lemma_moved_complete(d, l);
        let prev = moved(d, l);
        let cur = moved(s, l);
        assert forall|i: int| 0 <= i < s.len() && (#[trigger] observed_at(l, s[i].path)).is_some()
            && observed_at(l, s[i].path)->Some_0.size != s[i].size
            implies recorded(cur, s[i].path) by {
            if i < d.len() {
                assert(d[i] == s[i]);
                assert(observed_at(l, d[i].path).is_some());
                let x = choose|x: int| 0 <= x < prev.len() && #[trigger] prev[x].path == d[i].path;
                assert(cur[x] == prev[x]);
            } else {
                assert(s[i] == s.last());
                lemma_observed_at(l, s[i].path);
                assert(cur[prev.len() as int].path == s[i].path);
            }
        }
    }
}

proof fn lemma_discovered_complete(s: Seq<FileRecord>, l: Seq<Observed>, n: int)
    requires
        0 <= n <= l.len(),
    ensures
        forall|j: int| 0 <= j < n && #[trigger] is_new_entry(s, l, j) ==> recorded(discovered(s, l, n), l[j].path),
    decreases n,
{
    if n > 0 {
        lemma_discovered_complete(s, l, n - 1);
        let prev = discovered(s, l, n - 1);
        let cur = discovered(s, l, n);
        assert forall|j: int| 0 <= j < n && #[trigger] is_new_entry(s, l, j) implies recorded(cur, l[j].path) by {
            if j < n - 1 {
                let x = choose|x: int| 0 <= x < prev.len() && #[trigger] prev[x].path == l[j].path;
                assert(cur[x] == prev[x]);
            } else {
                assert(cur[prev.len() as int].path == l[j].path);
            }
        }
    }
}

/// After a scan, the tag's records agree with the listing it was scanned against.
pub proof fn scan_syncs_with_listing(s: Seq<FileRecord>, l: Seq<Observed>)
    ensures
        in_sync(scanned(s, l), l),
{
    let k = kept(s, l);
    let m = moved(s, l);
    let d = discovered(s, l, l.len() as int);
    let r = scanned(s, l);
    lemma_kept_origin(s, l);
    lemma_moved_origin(s, l);
    lemma_discovered_origin(s, l, l.len() as int);
    assert forall|x: int| 0 <= x < r.len() implies match #[trigger] observed_at(l, r[x].path) {
        Some(o) => o.size == r[x].size && o.modified == r[x].modified,
        None => false,
    } by {
        if x < k.len() {
            assert(r[x] == k[x]);
            let i = choose|i: int| 0 <= i < s.len() && #[trigger] s[i].path == (#[trigger] k[x]).path
                && kept_record(s[i], l) == Some(k[x]);
        } else if x < k.len() + m.len() {
            assert(r[x] == m[x - k.len()]);
            let i = choose|i: int| 0 <= i < s.len() && #[trigger] s[i].path == (#[trigger] m[x - k.len()]).path
                && observed_at(l, s[i].path) == Some(Observed { path: s[i].path, size: m[x - k.len()].size, modified: m[x - k.len()].modified })
                && m[x - k.len()] == fresh_record(observed_at(l, s[i].path)->Some_0)
                && m[x - k.len()].size != s[i].size;
        } else {
            let y = x - k.len() - m.len();
            assert(r[x] == d[y]);
            assert(discovered_from(s, l, l.len() as int, y));
            let j = choose|j: int| 0 <= j < l.len() && j < l.len() && is_new_entry(s, l, j)
                && #[trigger] d[y] == fresh_record(l[j]);
            lemma_observed_at(l, l[j].path);
        }
    }
    lemma_kept_complete(s, l);
    lemma_moved_complete(s, l);
    lemma_discovered_complete(s, l, l.len() as int);
    assert forall|j: int| 0 <= j < l.len() implies #[trigger] recorded(r, l[j].path) by {
        let p = l[j].path;
        lemma_observed_at(l, p);
        if recorded(s, p) {
            let i = choose|i: int| 0 <= i < s.len() && #[trigger] s[i].path == p;
            let o = observed_at(l, p)->Some_0;
            if o.size == s[i].size {
                assert(kept_record(s[i], l).is_some());
                let x = choose|x: int| 0 <= x < k.len() && #[trigger] k[x].path == p;
                assert(r[x] == k[x]);
            } else {
                assert(observed_at(l, s[i].path).is_some());
                let x = choose|x: int| 0 <= x < m.len() && #[trigger] m[x].path == p;
                assert(r[k.len() + x] == m[x]);
            }
        } else {
            let f = find_listed(l, p, 0);
            lemma_find_listed(l, p, 0);
            assert(l[f].path == p);
            assert(is_new_entry(s, l, f));
            let x = choose|x: int| 0 <= x < d.len() && #[trigger] d[x].path == l[f].path;
            assert(r[k.len() + m.len() + x] == d[x]);
        }
    }
}

/// Scanning twice against the same listing gives the state of the first scan.
pub proof fn rescan_is_idempotent(s: Seq<FileRecord>, l: Seq<Observed>)
    ensures
        scanned(scanned(s, l), l) == scanned(s, l),
{
    scan_syncs_with_listing(s, l);
    scan_of_synced_tag_changes_nothing(scanned(s, l), l);
}

/// Storing a fingerprint keeps a tag in agreement with its listing, so a rescan after
/// the fingerprints were stored changes nothing either.
pub proof fn fingerprinting_keeps_sync(s: Seq<FileRecord>, l: Seq<Observed>, k: int, fingerprint: u64)
    requires
        in_sync(s, l),
        0 <= k < s.len(),
    ensures
        in_sync(s.update(k, with_fingerprint(s[k], fingerprint)), l),
        scanned(s.update(k, with_fingerprint(s[k], fingerprint)), l) == s.update(k, with_fingerprint(s[k], fingerprint)),
{
    let t = s.update(k, with_fingerprint(s[k], fingerprint));
    assert forall|i: int| 0 <= i < t.len() implies match #[trigger] observed_at(l, t[i].path) {
        Some(o) => o.size == t[i].size && o.modified == t[i].modified,
        None => false,
    } by {
        assert(t[i].path == s[i].path && t[i].size == s[i].size && t[i].modified == s[i].modified);
    }
    assert forall|j: int| 0 <= j < l.len() implies #[trigger] recorded(t, l[j].path) by {
        assert(recorded(s, l[j].path));
        let i = choose|i: int| 0 <= i < s.len() && #[trigger] s[i].path == l[j].path;
        assert(t[i].path == s[i].path);
    }
    scan_of_synced_tag_changes_nothing(t, l);
}

proof fn lemma_observed_in_unique(l: Seq<Observed>, q: Seq<char>)
    requires
        unique_listing(l),
    ensures
        forall|m: int| 0 <= m < l.len() && l[m].path == q ==> observed_at(l, q) == Some(l[m]),
        (forall|m: int| 0 <= m < l.len() ==> l[m].path != q) ==> observed_at(l, q) is None,
{
    lemma_find_listed(l, q, 0);
}

proof fn lemma_observed_after_removal(l: Seq<Observed>, k: int, q: Seq<char>)
    requires
        unique_listing(l),
        0 <= k < l.len(),
    ensures
        unique_listing(l.remove(k)),
        q == l[k].path ==> observed_at(l.remove(k), q) is None,
        q != l[k].path ==> observed_at(l.remove(k), q) == observed_at(l, q),
{
    let l2 = l.remove(k);
    assert forall|a: int, b: int| 0 <= a < l2.len() && 0 <= b < l2.len() && a != b implies l2[a].path != l2[b].path by {
        let a1 = if a < k { a } else { a + 1 };
        let b1 = if b < k { b } else { b + 1 };
        assert(l2[a] == l[a1] && l2[b] == l[b1]);
    }
    lemma_observed_in_unique(l, q);
    lemma_observed_in_unique(l2, q);
    if q == l[k].path {
        assert forall|m: int| 0 <= m < l2.len() implies l2[m].path != q by {
            let m1 = if m < k { m } else { m + 1 };
            assert(l2[m] == l[m1]);
        }
    } else {
        if exists|m: int| 0 <= m < l.len() && l[m].path == q {
            let m = choose|m: int| 0 <= m < l.len() && l[m].path == q;
            let m2 = if m < k { m } else { m - 1 };
            assert(l2[m2] == l[m]);
        } else {
            assert forall|m: int| 0 <= m < l2.len() implies l2[m].path != q by {
                let m1 = if m < k { m } else { m + 1 };
                assert(l2[m] == l[m1]);
            }
        }
    }
}

/// `s.take(n)` without its record `i`, when `i < n`.
spec fn take_without(s: Seq<FileRecord>, i: int, n: int) -> Seq<FileRecord> {
    if n <= i {
        s.take(n)
    } else {
        s.take(i) + s.subrange(i + 1, n)
    }
}

proof fn lemma_scan_after_removal_prefix(s: Seq<FileRecord>, l: Seq<Observed>, k: int, i: int, n: int)
    requires
        unique_listing(l),
        0 <= k < l.len(),
        unique_paths(s),
        records_match(s, l),
        0 <= i < s.len(),
        s[i].path == l[k].path,
        0 <= n <= s.len(),
    ensures
        kept(s.take(n), l.remove(k)) == take_without(s, i, n),
        moved(s.take(n), l.remove(k)) == Seq::<FileRecord>::empty(),
    decreases n,
{
    let l2 = l.remove(k);
    if n == 0 {
        assert(kept(s.take(n), l2) =~= take_without(s, i, n));
    } else {
        lemma_scan_after_removal_prefix(s, l, k, i, n - 1);
        let t = s.take(n);
        assert(t.drop_last() =~= s.take(n - 1));
        assert(t.last() == s[n - 1]);
        lemma_observed_after_removal(l, k, s[n - 1].path);
        if n - 1 == i {
            assert(kept_record(s[n - 1], l2) is None);
            assert(kept(t, l2) =~= take_without(s, i, n));
        } else {
            assert(s[n - 1].path != s[i].path);
            assert(kept_record(s[n - 1], l2) == Some(s[n - 1]));
            assert(kept(t, l2) =~= take_without(s, i, n));
        }
    }
}

proof fn lemma_bucket_prefix(a: Seq<FileRecord>, b: Seq<FileRecord>, size: u64, n: int)
    requires
        0 <= n <= a.len(),
        n <= b.len(),
        a.take(n) == b.take(n),
    ensures
        bucket_upto(a, size, n) == bucket_upto(b, size, n),
    decreases n,
{
    if n > 0 {
        assert(a.take(n - 1) =~= a.take(n).take(n - 1));
        assert(b.take(n - 1) =~= b.take(n).take(n - 1));
        assert(a[n - 1] == a.take(n)[n - 1]);
        assert(b[n - 1] == b.take(n)[n - 1]);
        lemma_bucket_prefix(a, b, size, n - 1);
    }
}

proof fn lemma_bucket_removal(s: Seq<FileRecord>, i: int)
    requires
        0 <= i < s.len(),
    ensures
        bucket_of(s.remove(i), s[i].size).len() + 1 == bucket_of(s, s[i].size).len(),
    decreases s.len(),
{
    let size = s[i].size;
    let n = s.len() as int;
    let r = s.remove(i);
    if i == n - 1 {
        assert(r =~= s.drop_last());
        assert(r.take(n - 1) =~= s.take(n - 1));
        lemma_bucket_prefix(r, s, size, n - 1);
    } else {
        let d = s.drop_last();
        lemma_bucket_removal(d, i);
        assert(d[i] == s[i]);
        assert(r.drop_last() =~= d.remove(i));
        assert(r[n - 2] == s[n - 1]);
        assert(r.take(n - 2) =~= d.remove(i).take(n - 2));
        assert(s.take(n - 1) =~= d.take(n - 1));
        lemma_bucket_prefix(r, d.remove(i), size, n - 2);
        lemma_bucket_prefix(s, d, size, n - 1);
    }
}

/// Deleting one indexed file and rescanning removes exactly its record, from the path
/// index and from its size bucket, which loses exactly one record.
pub proof fn deletion_removes_one_record(s: Seq<FileRecord>, l: Seq<Observed>, k: int, i: int)
    requires
        unique_paths(s),
        unique_listing(l),
        in_sync(s, l),
        0 <= k < l.len(),
        0 <= i < s.len(),
        s[i].path == l[k].path,
    ensures
        scanned(s, l.remove(k)) == s.remove(i),
        !recorded(scanned(s, l.remove(k)), l[k].path),
        bucket_of(scanned(s, l.remove(k)), s[i].size).len() + 1 == bucket_of(s, s[i].size).len(),
{
    let l2 = l.remove(k);
    lemma_scan_after_removal_prefix(s, l, k, i, s.len() as int);
    assert(s.take(s.len() as int) =~= s);
    assert(take_without(s, i, s.len() as int) =~= s.remove(i));
    assert forall|j: int| 0 <= j < l2.len() implies #[trigger] recorded(s, l2[j].path) by {
        let j1 = if j < k { j } else { j + 1 };
        assert(l2[j] == l[j1]);
        assert(recorded(s, l[j1].path));
    }
    lemma_nothing_new(s, l2, l2.len() as int);
    assert(scanned(s, l2) =~= s.remove(i));
    let r = s.remove(i);
    if recorded(r, l[k].path) {
        let x = choose|x: int| 0 <= x < r.len() && #[trigger] r[x].path == l[k].path;
        let x1 = if x < i { x } else { x + 1 };
        assert(r[x] == s[x1]);
    }
    lemma_bucket_removal(s, i);
}

proof fn lemma_fingerprinted_all(s: Seq<FileRecord>, ps: Seq<Seq<char>>, fp: spec_fn(Seq<char>) -> u64)
    requires
        unique_paths(s),
    ensures
        fingerprinted_all(s, ps, fp).len() == s.len(),
        forall|i: int| 0 <= i < s.len() ==> (#[trigger] fingerprinted_all(s, ps, fp)[i]).path == s[i].path
            && fingerprinted_all(s, ps, fp)[i].size == s[i].size,
        forall|i: int| 0 <= i < s.len() && (fully_hashed(s[i]) || ps.contains(s[i].path))
            ==> fully_hashed(#[trigger] fingerprinted_all(s, ps, fp)[i]),
    decreases ps.len(),
{
    if ps.len() > 0 {
        let d = ps.drop_last();
        let p = ps.last();
        lemma_fingerprinted_all(s, d, fp);
        let prev = fingerprinted_all(s, d, fp);
        let cur = fingerprinted_all(s, ps, fp);
        assert(cur == fingerprinted(prev, p, fp(p)));
        lemma_find_record(prev, p, 0);
        let k = find_record(prev, p, 0);
        assert forall|i: int| 0 <= i < s.len() implies (#[trigger] cur[i]).path == s[i].path
            && cur[i].size == s[i].size by {
            assert(prev[i].path == s[i].path);
        }
        assert forall|i: int| 0 <= i < s.len() && (fully_hashed(s[i]) || ps.contains(s[i].path))
            implies fully_hashed(#[trigger] cur[i]) by {
            assert(prev[i].path == s[i].path);
            if s[i].path == p {
                assert(k != -1);
                assert(prev[k].path == s[k].path);
                assert(k == i);
            } else if !fully_hashed(s[i]) {
                let j = choose|j: int| 0 <= j < ps.len() && ps[j] == s[i].path;
                assert(d[j] == ps[j]);
                assert(d.contains(s[i].path));
            }
        }
    }
}

/// Storing a fingerprint for every path that needs one leaves nothing pending: every
/// record that shares its size with another is then fully hashed.
pub proof fn fingerprinting_pending_settles(s: Seq<FileRecord>, ps: Seq<Seq<char>>, fp: spec_fn(Seq<char>) -> u64)
    requires
        unique_paths(s),
        horizons_bounded(s),
        forall|i: int| 0 <= i < s.len() && needs_fingerprint(s, i) ==> ps.contains(#[trigger] s[i].path),
    ensures
        ({
            let r = fingerprinted_all(s, ps, fp);
            &&& pending_upto(r, r.len() as int).len() == 0
            &&& forall|i: int| 0 <= i < r.len() && shares_size(r, i) ==> fully_hashed(#[trigger] r[i])
            &&& forall|i: int| 0 <= i < s.len() && ps.contains(s[i].path) ==> fully_hashed(#[trigger] r[i])
        }),
{
    let r = fingerprinted_all(s, ps, fp);
    lemma_fingerprinted_all(s, ps, fp);
    assert forall|i: int| 0 <= i < r.len() implies !needs_fingerprint(r, i) by {
        assert(r[i].size == s[i].size);
        if shares_size(r, i) {
            let j = choose|j: int| 0 <= j < r.len() && j != i && #[trigger] r[j].size == r[i].size;
            assert(r[j].size == s[j].size);
            assert(shares_size(s, i));
            assert(s[i].horizon <= s[i].size);
        }
    }
    lemma_all_settled(r, r.len() as int);
    assert forall|i: int| 0 <= i < r.len() && shares_size(r, i) implies fully_hashed(#[trigger] r[i]) by {
        assert(!needs_fingerprint(r, i));
    }
}

proof fn lemma_all_settled(s: Seq<FileRecord>, n: int)
    requires
        0 <= n <= s.len(),
        forall|i: int| 0 <= i < s.len() ==> !needs_fingerprint(s, i),
    ensures
        pending_upto(s, n).len() == 0,
    decreases n,
{
    if n > 0 {
        lemma_all_settled(s, n - 1);
    }
}

proof fn lemma_work_covers(t: Seq<FileRecord>, f: Seq<Seq<char>>, n: int)
    requires
        0 <= n <= t.len(),
    ensures
        forall|i: int| 0 <= i < n && (needs_fingerprint(t, i) || f.contains(t[i].path))
            ==> work_upto(t, f, n).contains(#[trigger] t[i].path),
    decreases n,
{
    if n > 0 {
        lemma_work_covers(t, f, n - 1);
        let prev = work_upto(t, f, n - 1);
        let cur = work_upto(t, f, n);
        assert forall|i: int| 0 <= i < n && (needs_fingerprint(t, i) || f.contains(t[i].path))
            implies cur.contains(#[trigger] t[i].path) by {
            if i < n - 1 {
                let j = choose|j: int| 0 <= j < prev.len() && prev[j] == t[i].path;
                assert(cur[j] == prev[j]);
            } else {
                assert(cur[prev.len() as int] == t[i].path);
            }
        }
    }
}

/// A whole scan, the reconciliation and then a fingerprint stored for every path it
/// lists, leaves nothing pending: every record whose size is shared is fully hashed, and
/// so is every record whose file changed at the same size.
pub proof fn full_scan_settles(s: Seq<FileRecord>, l: Seq<Observed>, fp: spec_fn(Seq<char>) -> u64)
    requires
        unique_paths(s),
        horizons_bounded(s),
    ensures
        ({
            let t = scanned(s, l);
            let f = refreshed_upto(s, l, s.len() as int);
            let r = fingerprinted_all(t, work_upto(t, f, t.len() as int), fp);
            &&& pending_upto(r, r.len() as int).len() == 0
            &&& forall|i: int| 0 <= i < r.len() && shares_size(r, i) ==> fully_hashed(#[trigger] r[i])
            &&& forall|i: int| 0 <= i < t.len() && f.contains(t[i].path) ==> fully_hashed(#[trigger] r[i])
        }),
{
    let t = scanned(s, l);
    let f = refreshed_upto(s, l, s.len() as int);
    let w = work_upto(t, f, t.len() as int);
    crate::scan::lemma_scanned_unique(s, l);
    crate::scan::lemma_scanned_bounded(s, l);
    lemma_work_covers(t, f, t.len() as int);
    fingerprinting_pending_settles(t, w, fp);
    let r = fingerprinted_all(t, w, fp);
    assert forall|i: int| 0 <= i < t.len() && f.contains(t[i].path) implies fully_hashed(#[trigger] r[i]) by {
        assert(w.contains(t[i].path));
    }
}

} // verus!
