use vstd::prelude::*;
use crate::record::{FileRecord, Observed, fresh_record};

verus! {

/// Position of the first key at or after `k` in `keys` that equals `p`, or -1.
pub open spec fn first_index(keys: Seq<Seq<char>>, p: Seq<char>, k: int) -> int
    decreases keys.len() - k,
{
    if k < 0 || k >= keys.len() {
        -1
    } else if keys[k] == p {
        k
    } else {
        first_index(keys, p, k + 1)
    }
}

/// `first_index` finds `p` at the first position from `k` on that holds it, if any.
pub proof fn lemma_first_index(keys: Seq<Seq<char>>, p: Seq<char>, k: int)
    requires
        0 <= k,
    ensures
        ({
            let r = first_index(keys, p, k);
            &&& r == -1 || (k <= r < keys.len() && keys[r] == p)
            &&& forall|j: int| k <= j < keys.len() && (r == -1 || j < r) ==> keys[j] != p
        }),
    decreases keys.len() - k,
{
    if k < keys.len() && keys[k] != p {
        lemma_first_index(keys, p, k + 1);
    }
}

/// The paths of a listing, in order.
pub open spec fn listed_paths(l: Seq<Observed>) -> Seq<Seq<char>> {
    l.map_values(|o: Observed| o.path)
}

/// Position of the first entry at or after `k` in listing `l` whose path is `p`, or -1.
pub open spec fn find_listed(l: Seq<Observed>, p: Seq<char>, k: int) -> int {
    first_index(listed_paths(l), p, k)
}

/// What the listing says of path `p`: its first entry with that path, if any.
pub open spec fn observed_at(l: Seq<Observed>, p: Seq<char>) -> Option<Observed> {
    let k = find_listed(l, p, 0);
    if k >= 0 {
        Some(l[k])
    } else {
        None
    }
}

/// Whether some record of `s` has path `p`.
pub open spec fn recorded(s: Seq<FileRecord>, p: Seq<char>) -> bool {
    exists|i: int| 0 <= i < s.len() && #[trigger] s[i].path == p
}

/// No two records share a path.
pub open spec fn unique_paths(s: Seq<FileRecord>) -> bool {
    forall|i: int, j: int| 0 <= i < s.len() && 0 <= j < s.len() && i != j ==> s[i].path != s[j].path
}

/// No record claims to have hashed more bytes than its file holds.
pub open spec fn horizons_bounded(s: Seq<FileRecord>) -> bool {
    forall|i: int| 0 <= i < s.len() ==> #[trigger] s[i].horizon <= s[i].size
}

/// What the diff pass keeps in place of record `r`: the record itself when unchanged,
/// the record with its old fingerprint discarded, to be computed again, when the content
/// changed at the same size,
/// nothing when the file is gone or changed size.
pub open spec fn kept_record(r: FileRecord, l: Seq<Observed>) -> Option<FileRecord> {
    match observed_at(l, r.path) {
        None => None,
        Some(o) => if o.size != r.size {
            None
        } else if o.modified != r.modified {
            Some(FileRecord { fingerprint: 0, horizon: 0, modified: o.modified, ..r })
        } else {
            Some(r)
        },
    }
}

/// Whether the file of record `r` changed at the same size: the diff pass keeps the
/// record in place, and its fingerprint must be computed again.
pub open spec fn refreshed(r: FileRecord, l: Seq<Observed>) -> bool {
    match observed_at(l, r.path) {
        Some(o) => o.size == r.size && o.modified != r.modified,
        None => false,
    }
}

/// The paths of the refreshed records among the first `n` of `s`, in order.
pub open spec fn refreshed_upto(s: Seq<FileRecord>, l: Seq<Observed>, n: int) -> Seq<Seq<char>>
    decreases n,
{
    if n <= 0 || n > s.len() {
        seq![]
    } else if refreshed(s[n - 1], l) {
        refreshed_upto(s, l, n - 1).push(s[n - 1].path)
    } else {
        refreshed_upto(s, l, n - 1)
    }
}

/// The records that stay in place through the diff pass, in their order.
pub open spec fn kept(s: Seq<FileRecord>, l: Seq<Observed>) -> Seq<FileRecord>
    decreases s.len(),
{
    if s.len() == 0 {
        seq![]
    } else {
        let prev = kept(s.drop_last(), l);
        match kept_record(s.last(), l) {
            Some(x) => prev.push(x),
            None => prev,
        }
    }
}

/// The records of files whose size changed, re-inserted under their new size.
pub open spec fn moved(s: Seq<FileRecord>, l: Seq<Observed>) -> Seq<FileRecord>
    decreases s.len(),
{
    if s.len() == 0 {
        seq![]
    } else {
        let prev = moved(s.drop_last(), l);
        match observed_at(l, s.last().path) {
            Some(o) => if o.size != s.last().size {
                prev.push(fresh_record(o))
            } else {
                prev
            },
            None => prev,
        }
    }
}

/// Whether the entry `l[j]` is a file that `s` does not hold yet (the first entry of its path).
pub open spec fn is_new_entry(s: Seq<FileRecord>, l: Seq<Observed>, j: int) -> bool {
    !recorded(s, l[j].path) && find_listed(l, l[j].path, 0) == j
}

/// Records for the files among the first `n` entries of the listing that `s` does not hold.
pub open spec fn discovered(s: Seq<FileRecord>, l: Seq<Observed>, n: int) -> Seq<FileRecord>
    decreases n,
{
    if n <= 0 || n > l.len() {
        seq![]
    } else {
        let prev = discovered(s, l, n - 1);
        if is_new_entry(s, l, n - 1) {
            prev.push(fresh_record(l[n - 1]))
        } else {
            prev
        }
    }
}

/// The records of a tag after a scan of records `s` against listing `l`: the diff pass,
/// then the files whose size changed, then the newly discovered files.
pub open spec fn scanned(s: Seq<FileRecord>, l: Seq<Observed>) -> Seq<FileRecord> {
    kept(s, l) + moved(s, l) + discovered(s, l, l.len() as int)
}

/// Each record's file is listed with the recorded size and modification time.
pub open spec fn records_match(s: Seq<FileRecord>, l: Seq<Observed>) -> bool {
    forall|i: int| 0 <= i < s.len() ==> match #[trigger] observed_at(l, s[i].path) {
        Some(o) => o.size == s[i].size && o.modified == s[i].modified,
        None => false,
    }
}

/// A tag's records agree with the listing: each record's file is listed with the
/// recorded size and modification time, and each listed file has a record.
pub open spec fn in_sync(s: Seq<FileRecord>, l: Seq<Observed>) -> bool {
    &&& records_match(s, l)
    &&& forall|j: int| 0 <= j < l.len() ==> #[trigger] recorded(s, l[j].path)
}

/// What `find_listed` finds, in terms of the listing's entries.
pub proof fn lemma_find_listed(l: Seq<Observed>, p: Seq<char>, k: int)
    requires
        0 <= k,
    ensures
        ({
            let r = find_listed(l, p, k);
            &&& r == -1 || (k <= r < l.len() && l[r].path == p)
            &&& forall|j: int| k <= j < l.len() && (r == -1 || j < r) ==> l[j].path != p
        }),
{
    lemma_first_index(listed_paths(l), p, k);
    assert forall|j: int| 0 <= j < l.len() implies #[trigger] l[j].path == listed_paths(l)[j] by {}
}

/// The first entry of a path is the one that `observed_at` reports.
pub proof fn lemma_observed_at(l: Seq<Observed>, p: Seq<char>)
    ensures
        match observed_at(l, p) {
            Some(o) => o.path == p,
            None => forall|j: int| 0 <= j < l.len() ==> l[j].path != p,
        },
        forall|j: int| 0 <= j < l.len() && l[j].path == p ==> observed_at(l, p).is_some(),
{
    lemma_find_listed(l, p, 0);
}

/// Each kept record stands for a record of `s` with the same path and the listed size.
pub proof fn lemma_kept_origin(s: Seq<FileRecord>, l: Seq<Observed>)
    ensures
        forall|x: int| 0 <= x < kept(s, l).len() ==> exists|i: int| 0 <= i < s.len()
            && #[trigger] s[i].path == (#[trigger] kept(s, l)[x]).path
            && kept_record(s[i], l) == Some(kept(s, l)[x]),
    decreases s.len(),
{
    if s.len() > 0 {
        lemma_kept_origin(s.drop_last(), l);
        let prev = kept(s.drop_last(), l);
        assert forall|x: int| 0 <= x < kept(s, l).len() implies exists|i: int| 0 <= i < s.len()
            && #[trigger] s[i].path == (#[trigger] kept(s, l)[x]).path
            && kept_record(s[i], l) == Some(kept(s, l)[x]) by {
            if x < prev.len() {
                let i = choose|i: int| 0 <= i < s.drop_last().len()
                    && #[trigger] s.drop_last()[i].path == (#[trigger] prev[x]).path
                    && kept_record(s.drop_last()[i], l) == Some(prev[x]);
                assert(s[i] == s.drop_last()[i]);
            } else {
                assert(s[s.len() - 1] == s.last());
            }
        }
    }
}

/// Each moved record stands for a record of `s` with the same path and another size.
pub proof fn lemma_moved_origin(s: Seq<FileRecord>, l: Seq<Observed>)
    ensures
        forall|x: int| 0 <= x < moved(s, l).len() ==> exists|i: int| 0 <= i < s.len()
            && #[trigger] s[i].path == (#[trigger] moved(s, l)[x]).path
            && observed_at(l, s[i].path) == Some(Observed { path: s[i].path, size: moved(s, l)[x].size, modified: moved(s, l)[x].modified })
            && moved(s, l)[x] == fresh_record(observed_at(l, s[i].path)->Some_0)
            && moved(s, l)[x].size != s[i].size,
    decreases s.len(),
{
    if s.len() > 0 {
        lemma_moved_origin(s.drop_last(), l);
        let prev = moved(s.drop_last(), l);
        assert forall|x: int| 0 <= x < moved(s, l).len() implies exists|i: int| 0 <= i < s.len()
            && #[trigger] s[i].path == (#[trigger] moved(s, l)[x]).path
            && observed_at(l, s[i].path) == Some(Observed { path: s[i].path, size: moved(s, l)[x].size, modified: moved(s, l)[x].modified })
            && moved(s, l)[x] == fresh_record(observed_at(l, s[i].path)->Some_0)
            && moved(s, l)[x].size != s[i].size by {
            if x < prev.len() {
                let i = choose|i: int| 0 <= i < s.drop_last().len()
                    && #[trigger] s.drop_last()[i].path == (#[trigger] prev[x]).path
                    && observed_at(l, s.drop_last()[i].path) == Some(Observed { path: s.drop_last()[i].path, size: prev[x].size, modified: prev[x].modified })
                    && prev[x] == fresh_record(observed_at(l, s.drop_last()[i].path)->Some_0)
                    && prev[x].size != s.drop_last()[i].size;
                assert(s[i] == s.drop_last()[i]);
            } else {
                let i = s.len() - 1;
                assert(s[i] == s.last());
                lemma_observed_at(l, s[i].path);
            }
        }
    }
}

/// Record `x` of `discovered(s, l, n)` is the fresh record of a new entry among the first `n`.
pub open spec fn discovered_from(s: Seq<FileRecord>, l: Seq<Observed>, n: int, x: int) -> bool {
    exists|j: int| 0 <= j < n && j < l.len() && is_new_entry(s, l, j)
        && #[trigger] discovered(s, l, n)[x] == fresh_record(l[j])
}

/// Each discovered record is the fresh record of a new entry among the first `n`.
pub proof fn lemma_discovered_origin(s: Seq<FileRecord>, l: Seq<Observed>, n: int)
    ensures
        forall|x: int| 0 <= x < discovered(s, l, n).len() ==> #[trigger] discovered_from(s, l, n, x),
        unique_paths(discovered(s, l, n)),
    decreases n,
{
    if n > 0 && n <= l.len() {
        lemma_discovered_origin(s, l, n - 1);
        let prev = discovered(s, l, n - 1);
        let cur = discovered(s, l, n);
        assert forall|x: int| 0 <= x < cur.len() implies #[trigger] discovered_from(s, l, n, x) by {
            if x < prev.len() {
                assert(discovered_from(s, l, n - 1, x));
                assert(cur[x] == prev[x]);
                let j = choose|j: int| 0 <= j < n - 1 && j < l.len()
                    && is_new_entry(s, l, j) && #[trigger] prev[x] == fresh_record(l[j]);
                assert(0 <= j < n && j < l.len() && is_new_entry(s, l, j) && cur[x] == fresh_record(l[j]));
            } else {
                assert(cur[x] == fresh_record(l[n - 1]));
            }
        }
        if is_new_entry(s, l, n - 1) {
            assert forall|a: int, b: int| 0 <= a < cur.len() && 0 <= b < cur.len() && a != b
                implies cur[a].path != cur[b].path by {
                if a == prev.len() || b == prev.len() {
                    let o = if a == prev.len() { b } else { a };
                    assert(cur[o] == prev[o]);
                    assert(discovered_from(s, l, n - 1, o));
                    let j = choose|j: int| 0 <= j < n - 1 && j < l.len()
                        && is_new_entry(s, l, j) && #[trigger] prev[o] == fresh_record(l[j]);
                    assert(find_listed(l, l[j].path, 0) == j);
                } else {
                    assert(cur[a] == prev[a] && cur[b] == prev[b]);
                }
            }
        }
    }
}

pub proof fn lemma_kept_unique(s: Seq<FileRecord>, l: Seq<Observed>)
    requires
        unique_paths(s),
    ensures
        unique_paths(kept(s, l)),
    decreases s.len(),
{
    if s.len() > 0 {
        let d = s.drop_last();
        lemma_kept_unique(d, l);
        lemma_kept_origin(d, l);
        let prev = kept(d, l);
        let cur = kept(s, l);
        if kept_record(s.last(), l).is_some() {
            assert forall|a: int, b: int| 0 <= a < cur.len() && 0 <= b < cur.len() && a != b
                implies cur[a].path != cur[b].path by {
                if a == prev.len() || b == prev.len() {
                    let o = if a == prev.len() { b } else { a };
                    assert(cur[o] == prev[o]);
                    let i = choose|i: int| 0 <= i < d.len() && #[trigger] d[i].path == (#[trigger] prev[o]).path
                        && kept_record(d[i], l) == Some(prev[o]);
                    assert(d[i] == s[i]);
                    assert(s.last() == s[s.len() - 1]);
                } else {
                    assert(cur[a] == prev[a] && cur[b] == prev[b]);
                }
            }
        }
    }
}

pub proof fn lemma_moved_unique(s: Seq<FileRecord>, l: Seq<Observed>)
    requires
        unique_paths(s),
    ensures
        unique_paths(moved(s, l)),
    decreases s.len(),
{
    if s.len() > 0 {
        let d = s.drop_last();
        lemma_moved_unique(d, l);
        lemma_moved_origin(d, l);
        lemma_observed_at(l, s.last().path);
        let prev = moved(d, l);
        let cur = moved(s, l);
        if cur.len() > prev.len() {
            assert forall|a: int, b: int| 0 <= a < cur.len() && 0 <= b < cur.len() && a != b
                implies cur[a].path != cur[b].path by {
                if a == prev.len() || b == prev.len() {
                    let o = if a == prev.len() { b } else { a };
                    assert(cur[o] == prev[o]);
                    let i = choose|i: int| 0 <= i < d.len() && #[trigger] d[i].path == (#[trigger] prev[o]).path
                        && observed_at(l, d[i].path) == Some(Observed { path: d[i].path, size: prev[o].size, modified: prev[o].modified })
                        && prev[o] == fresh_record(observed_at(l, d[i].path)->Some_0)
                        && prev[o].size != d[i].size;
                    assert(d[i] == s[i]);
                    assert(s.last() == s[s.len() - 1]);
                } else {
                    assert(cur[a] == prev[a] && cur[b] == prev[b]);
                }
            }
        }
    }
}

/// A scan keeps every path at most once.
pub proof fn lemma_scanned_unique(s: Seq<FileRecord>, l: Seq<Observed>)
    requires
        unique_paths(s),
    ensures
        unique_paths(scanned(s, l)),
{
    let k = kept(s, l);
    let m = moved(s, l);
    let d = discovered(s, l, l.len() as int);
    lemma_kept_unique(s, l);
    lemma_moved_unique(s, l);
    lemma_kept_origin(s, l);
    lemma_moved_origin(s, l);
    lemma_discovered_origin(s, l, l.len() as int);
    let r = scanned(s, l);
    assert forall|a: int, b: int| 0 <= a < r.len() && 0 <= b < r.len() && a != b
        implies r[a].path != r[b].path by {
        // tell each position of `r` apart by the part it comes from
        assert forall|x: int, y: int| 0 <= x < k.len() && 0 <= y < m.len() implies k[x].path != m[y].path by {
            let i = choose|i: int| 0 <= i < s.len() && #[trigger] s[i].path == (#[trigger] k[x]).path
                && kept_record(s[i], l) == Some(k[x]);
            let j = choose|j: int| 0 <= j < s.len() && #[trigger] s[j].path == (#[trigger] m[y]).path
                && observed_at(l, s[j].path) == Some(Observed { path: s[j].path, size: m[y].size, modified: m[y].modified })
                && m[y] == fresh_record(observed_at(l, s[j].path)->Some_0)
                && m[y].size != s[j].size;
            if k[x].path == m[y].path {
                assert(i == j);
            }
        }
        assert forall|x: int, y: int| 0 <= x < k.len() + m.len() && 0 <= y < d.len()
            implies (k + m)[x].path != d[y].path by {
            assert(discovered_from(s, l, l.len() as int, y));
            let j = choose|j: int| 0 <= j < l.len() as int && j < l.len()
                && is_new_entry(s, l, j) && #[trigger] d[y] == fresh_record(l[j]);
            if x < k.len() {
                let i = choose|i: int| 0 <= i < s.len() && #[trigger] s[i].path == (#[trigger] k[x]).path
                    && kept_record(s[i], l) == Some(k[x]);
                assert((k + m)[x] == k[x]);
            } else {
                let y2 = x - k.len();
                let i = choose|i: int| 0 <= i < s.len() && #[trigger] s[i].path == (#[trigger] m[y2]).path
                    && observed_at(l, s[i].path) == Some(Observed { path: s[i].path, size: m[y2].size, modified: m[y2].modified })
                    && m[y2] == fresh_record(observed_at(l, s[i].path)->Some_0)
                    && m[y2].size != s[i].size;
                assert((k + m)[x] == m[y2]);
            }
        }
        let km = k + m;
        if a < km.len() && b < km.len() {
            assert(r[a] == km[a] && r[b] == km[b]);
            if a < k.len() && b < k.len() {
            } else if a >= k.len() && b >= k.len() {
                assert(km[a] == m[a - k.len()] && km[b] == m[b - k.len()]);
            } else if a < k.len() {
                assert(km[a] == k[a] && km[b] == m[b - k.len()]);
            } else {
                assert(km[b] == k[b] && km[a] == m[a - k.len()]);
            }
        } else if a >= km.len() && b >= km.len() {
            assert(r[a] == d[a - km.len()] && r[b] == d[b - km.len()]);
        } else if a < km.len() {
            assert(r[a] == km[a] && r[b] == d[b - km.len()]);
        } else {
            assert(r[b] == km[b] && r[a] == d[a - km.len()]);
        }
    }
}

/// A scan never leaves a horizon beyond its file's size.
pub proof fn lemma_scanned_bounded(s: Seq<FileRecord>, l: Seq<Observed>)
    requires
        horizons_bounded(s),
    ensures
        horizons_bounded(scanned(s, l)),
{
    let k = kept(s, l);
    let m = moved(s, l);
    let d = discovered(s, l, l.len() as int);
    lemma_kept_origin(s, l);
    lemma_moved_origin(s, l);
    lemma_discovered_origin(s, l, l.len() as int);
    let r = scanned(s, l);
    assert forall|x: int| 0 <= x < r.len() implies #[trigger] r[x].horizon <= r[x].size by {
        if x < k.len() {
            assert(r[x] == k[x]);
            let i = choose|i: int| 0 <= i < s.len() && #[trigger] s[i].path == (#[trigger] k[x]).path
                && kept_record(s[i], l) == Some(k[x]);
            assert(s[i].horizon <= s[i].size);
        } else if x < k.len() + m.len() {
            assert(r[x] == m[x - k.len()]);
            let i = choose|i: int| 0 <= i < s.len() && #[trigger] s[i].path == (#[trigger] m[x - k.len()]).path
                && observed_at(l, s[i].path) == Some(Observed { path: s[i].path, size: m[x - k.len()].size, modified: m[x - k.len()].modified })
                && m[x - k.len()] == fresh_record(observed_at(l, s[i].path)->Some_0)
                && m[x - k.len()].size != s[i].size;
        } else {
            let y = x - k.len() - m.len();
            assert(r[x] == d[y]);
            assert(discovered_from(s, l, l.len() as int, y));
        }
    }
}

} // verus!
