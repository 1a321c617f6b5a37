//! Groups files by size and content digest.
use std::collections::HashMap;

use vstd::prelude::*;

use crate::model::{ContentHash, DuplicateGroup, FileInfo, FileView, GroupView, HashedFile, HashedView};
use crate::order::{
    lemma_path_le_reflexive, lemma_path_le_total, lemma_path_le_transitive, path_le, path_le_exec,
    sort_by_key, sorted_by_key, views, SortKey,
};
use crate::seqs::{
    lemma_count_two_positions, lemma_distinct_keys_permutation, lemma_filter_block,
    lemma_filter_permutation, lemma_sorted_same_elements_equal,
};

verus! {

broadcast use {
    vstd::seq_lib::group_to_multiset_ensures,
    vstd::multiset::group_multiset_axioms,
    vstd::std_specs::hash::group_hash_axioms,
};

/// The number of files of size `size`.
pub open spec fn size_count(files: Seq<FileView>, size: u64) -> nat {
    files.filter(|f: FileView| f.size == size).len()
}

/// The files that share their size with at least one other file, in their
/// given order: only these can have a duplicate.
pub open spec fn size_mates(files: Seq<FileView>) -> Seq<FileView> {
    files.filter(|f: FileView| size_count(files, f.size) >= 2)
}

/// A file is a candidate exactly when another file has its size, however
/// many files share that size.
pub proof fn lemma_size_mates_exact(files: Seq<FileView>)
    ensures
        forall|i: int|
            0 <= i < files.len() ==> (size_mates(files).contains(#[trigger] files[i]) <==> exists|
                j: int,
            | 0 <= j < files.len() && j != i && files[j].size == files[i].size),
        forall|f: FileView| size_mates(files).contains(f) ==> files.contains(f),
{
    let p = |f: FileView| size_count(files, f.size) >= 2;
    assert forall|i: int| 0 <= i < files.len() implies (size_mates(files).contains(
        #[trigger] files[i],
    ) <==> exists|j: int| 0 <= j < files.len() && j != i && files[j].size == files[i].size) by {
        let q = |f: FileView| f.size == files[i].size;
        if exists|j: int| 0 <= j < files.len() && j != i && files[j].size == files[i].size {
            let j = choose|j: int| 0 <= j < files.len() && j != i && files[j].size == files[i].size;
            crate::seqs::lemma_filter_two(files, q, i, j);
            files.lemma_filter_contains(p, i);
        } else {
            assert forall|m: int| 0 <= m < files.len() implies (q(#[trigger] files[m]) <==> i <= m
                < i + 1) by {}
            lemma_filter_block(files, q, i, i + 1);
            if size_mates(files).contains(files[i]) {
                let m = choose|m: int|
                    0 <= m < size_mates(files).len() && size_mates(files)[m] == files[i];
                files.lemma_filter_pred(p, m);
            }
        }
    }
    assert forall|f: FileView| size_mates(files).contains(f) implies files.contains(f) by {
        files.lemma_filter_contains_rev(p, f);
    }
}

proof fn lemma_size_count_push(s: Seq<FileView>, x: FileView, size: u64)
    ensures
        size_count(s.push(x), size) == size_count(s, size) + if x.size == size {
            1int
        } else {
            0int
        },
{
    reveal(Seq::filter);
    assert(s.push(x).drop_last() =~= s);
}

proof fn lemma_size_count_bound(s: Seq<FileView>, size: u64)
    ensures
        size_count(s, size) <= s.len(),
{
    s.lemma_filter_len(|f: FileView| f.size == size);
}

/// Keeps the files whose size another file shares, in their given order.
///
/// Files of a size that occurs once cannot have duplicates, so their contents
/// need not be read.
pub fn size_candidates(files: &Vec<FileInfo>) -> (r: Vec<FileInfo>)
    ensures
        views(r@) == size_mates(views(files@)),
{
    let ghost all = views(files@);
    let n = files.len();
    let mut counts: HashMap<u64, usize> = HashMap::new();
    let mut i: usize = 0;
    while i < n
        invariant
            n == files.len(),
            all == views(files@),
            i <= n,
            forall|s: u64|
                #![trigger counts@.contains_key(s)]
                (counts@.contains_key(s) <==> size_count(all.take(i as int), s) > 0) && (
                counts@.contains_key(s) ==> counts@[s] == size_count(all.take(i as int), s)),
        decreases n - i,
    {
        let size = files[i].size;
        let c: usize = match counts.get(&size) {
            Some(c) => *c,
            None => 0,
        };
        proof {
            assert(all.take(i + 1) =~= all.take(i as int).push(all[i as int]));
            lemma_size_count_bound(all.take(i as int), size);
            assert(c == size_count(all.take(i as int), size));
            assert forall|s: u64| #[trigger] size_count(all.take(i + 1), s) == size_count(
                all.take(i as int),
                s,
            ) + if all[i as int].size == s {
                1int
            } else {
                0int
            } by {
                lemma_size_count_push(all.take(i as int), all[i as int], s);
            }
        }
        counts.insert(size, c + 1);
        i = i + 1;
    }
    assert(all.take(n as int) =~= all);
    let mut r: Vec<FileInfo> = Vec::new();
    let mut i: usize = 0;
    while i < n
        invariant
            n == files.len(),
            all == views(files@),
            i <= n,
            forall|s: u64|
                #![trigger counts@.contains_key(s)]
                (counts@.contains_key(s) <==> size_count(all, s) > 0) && (counts@.contains_key(s)
                    ==> counts@[s] == size_count(all, s)),
            views(r@) == all.take(i as int).filter(|f: FileView| size_count(all, f.size) >= 2),
        decreases n - i,
    {
        let keep = match counts.get(&files[i].size) {
            Some(c) => *c >= 2,
            None => false,
        };
        let ghost old_r = r@;
        proof {
            reveal(Seq::filter);
            assert(all.take(i + 1).drop_last() =~= all.take(i as int));
            assert(keep == (size_count(all, all[i as int].size) >= 2));
        }
        if keep {
            let f = files[i].clone();
            r.push(f);
            assert(views(r@) =~= views(old_r).push(all[i as int]));
        }
        i = i + 1;
    }
    assert(all.take(n as int) =~= all);
    r
}

/// `a` comes before `b` in digest order.
pub open spec fn hash_lt(a: ContentHash, b: ContentHash) -> bool {
    a.hi < b.hi || (a.hi == b.hi && a.lo < b.lo)
}

impl SortKey for HashedFile {
    /// Hashed files sort by digest, and files of one digest by path.
    open spec fn ordered(a: HashedView, b: HashedView) -> bool {
        hash_lt(a.hash, b.hash) || (a.hash == b.hash && path_le(a.file.path, b.file.path))
    }

    proof fn lemma_ordered_total(a: HashedView, b: HashedView) {
        lemma_path_le_total(a.file.path, b.file.path);
    }

    proof fn lemma_ordered_transitive(a: HashedView, b: HashedView, c: HashedView) {
        if a.hash == b.hash && b.hash == c.hash {
            lemma_path_le_transitive(a.file.path, b.file.path, c.file.path);
        }
    }

    fn ordered_before(&self, other: &Self) -> (r: bool) {
        if self.hash.hi != other.hash.hi {
            self.hash.hi < other.hash.hi
        } else if self.hash.lo != other.hash.lo {
            self.hash.lo < other.hash.lo
        } else {
            path_le_exec(&self.file.path, &other.file.path)
        }
    }
}

/// The path of a group's first file, or the empty path for an empty group.
pub open spec fn first_path(g: GroupView) -> Seq<u8> {
    if g.files.len() > 0 {
        g.files[0].path
    } else {
        Seq::empty()
    }
}

impl SortKey for DuplicateGroup {
    /// Groups sort by reclaimable bytes, most first, then by the path of
    /// their first file.
    open spec fn ordered(a: GroupView, b: GroupView) -> bool {
        a.reclaimable_bytes > b.reclaimable_bytes || (a.reclaimable_bytes == b.reclaimable_bytes
            && path_le(first_path(a), first_path(b)))
    }

    proof fn lemma_ordered_total(a: GroupView, b: GroupView) {
        lemma_path_le_total(first_path(a), first_path(b));
    }

    proof fn lemma_ordered_transitive(a: GroupView, b: GroupView, c: GroupView) {
        if a.reclaimable_bytes == b.reclaimable_bytes && b.reclaimable_bytes
            == c.reclaimable_bytes {
            lemma_path_le_transitive(first_path(a), first_path(b), first_path(c));
        }
    }

    fn ordered_before(&self, other: &Self) -> (r: bool) {
        if self.reclaimable_bytes != other.reclaimable_bytes {
            return self.reclaimable_bytes > other.reclaimable_bytes;
        }
        let empty: Vec<u8> = Vec::new();
        let a = if self.files.len() > 0 {
            &self.files[0].path
        } else {
            &empty
        };
        let b = if other.files.len() > 0 {
            &other.files[0].path
        } else {
            &empty
        };
        proof {
            assert(views(self.files@).len() == self.files@.len());
            assert(views(other.files@).len() == other.files@.len());
            assert(empty@ =~= Seq::<u8>::empty());
        }
        path_le_exec(a, b)
    }
}

/// The entries of `entries` whose digest is `h`, in their order.
pub open spec fn with_hash(entries: Seq<HashedView>, h: ContentHash) -> Seq<HashedView> {
    entries.filter(|e: HashedView| e.hash == h)
}

/// The entries that a group stands for: each of its files with its digest.
pub open spec fn group_entries(g: GroupView) -> Seq<HashedView> {
    g.files.map_values(|f: FileView| HashedView { hash: g.hash, file: f })
}

/// `files` is in path order.
pub open spec fn path_sorted(files: Seq<FileView>) -> bool {
    forall|i: int, j: int| 0 <= i < j < files.len() ==> path_le(#[trigger] files[i].path, #[trigger] files[j].path)
}

/// What each group reports of `entries`: at least two files, which are
/// exactly the entries of the group's digest, in path order, and the bytes
/// freed by keeping one of them.
pub open spec fn is_duplicate_group(entries: Seq<HashedView>, g: GroupView) -> bool {
    &&& g.files.len() >= 2
    &&& group_entries(g).to_multiset() == with_hash(entries, g.hash).to_multiset()
    &&& path_sorted(g.files)
    &&& g.reclaimable_bytes == g.files[0].size * (g.files.len() - 1)
}

/// `groups` is the duplicate report for `entries`: every group is one, no
/// two groups share a digest, every digest that two entries share has a
/// group, and groups come in order of reclaimable bytes, most first, then by
/// the path of their first file.
pub open spec fn is_duplicate_report(entries: Seq<HashedView>, groups: Seq<GroupView>) -> bool {
    &&& forall|k: int| 0 <= k < groups.len() ==> is_duplicate_group(entries, #[trigger] groups[k])
    &&& forall|k: int, l: int|
        0 <= k < groups.len() && 0 <= l < groups.len() && k != l ==> (#[trigger] groups[k]).hash
            != (#[trigger] groups[l]).hash
    &&& forall|e: HashedView|
        entries.contains(e) && with_hash(entries, e.hash).len() >= 2 ==> exists|k: int|
            0 <= k < groups.len() && (#[trigger] groups[k]).hash == e.hash
    &&& sorted_by_key::<DuplicateGroup>(groups)
}

/// `e` has the least path among the entries of its digest, so a group of
/// that digest starts with it.
pub open spec fn leads_its_digest(entries: Seq<HashedView>, e: HashedView) -> bool {
    forall|e2: HashedView|
        entries.contains(e2) && e2.hash == e.hash ==> path_le(e.file.path, #[trigger] e2.file.path)
}

/// The bytes freed by the group that `e` leads do not fit in a `u64`.
pub open spec fn reclaim_overflows(entries: Seq<HashedView>, e: HashedView) -> bool {
    &&& entries.contains(e)
    &&& with_hash(entries, e.hash).len() >= 2
    &&& leads_its_digest(entries, e)
    &&& e.file.size * (with_hash(entries, e.hash).len() - 1) > u64::MAX
}

/// No two entries share a path.
pub open spec fn unique_paths(entries: Seq<HashedView>) -> bool {
    forall|a: int, b: int|
        0 <= a < entries.len() && 0 <= b < entries.len() && a != b ==> (
        #[trigger] entries[a]).file.path != (#[trigger] entries[b]).file.path
}

/// In a sorted sequence, a maximal run of one digest holds every entry of
/// that digest.
proof fn lemma_run_is_digest_class(s: Seq<HashedView>, i: int, j: int, h: ContentHash)
    requires
        sorted_by_key::<HashedFile>(s),
        0 <= i < j <= s.len(),
        forall|q: int| i <= q < j ==> (#[trigger] s[q]).hash == h,
        i == 0 || s[i - 1].hash != h,
        j == s.len() || s[j].hash != h,
    ensures
        with_hash(s, h) == s.subrange(i, j),
        forall|q: int| 0 <= q < s.len() && (#[trigger] s[q]).hash == h ==> i <= q < j,
{
    assert forall|q: int| 0 <= q < s.len() && (#[trigger] s[q]).hash == h implies i <= q < j by {
        if q < i {
            assert(HashedFile::ordered(s[q], s[i - 1]));
            assert(HashedFile::ordered(s[i - 1], s[i]));
        }
        if q >= j {
            assert(HashedFile::ordered(s[j - 1], s[j]));
            assert(HashedFile::ordered(s[j], s[q]));
        }
    }
    lemma_filter_block(s, |e: HashedView| e.hash == h, i, j);
}

/// Forms the duplicate groups of hashed files.
///
/// Files with equal digests form a group when there are at least two of
/// them; a group lists its files in path order and records the bytes that
/// keeping only one copy frees. Groups come most reclaimable bytes first.
/// When the bytes freed by some group do not fit in a `u64`, the result is
/// `None`.
pub fn group_duplicates(hashed: Vec<HashedFile>) -> (r: Option<Vec<DuplicateGroup>>)
    ensures
        r matches Some(groups) ==> is_duplicate_report(views(hashed@), views(groups@)),
        r is None ==> exists|e: HashedView| reclaim_overflows(views(hashed@), e),
        r is Some && unique_paths(views(hashed@)) ==> forall|e: HashedView|
            !reclaim_overflows(views(hashed@), e),
{
    let ghost entries = views(hashed@);
    let sorted = sort_by_key(hashed);
    let ghost s = views(sorted@);
    let n = sorted.len();
    let mut groups: Vec<DuplicateGroup> = Vec::new();
    let mut i: usize = 0;
    while i < n
        invariant
            n == sorted.len(),
            s == views(sorted@),
            s.to_multiset() == entries.to_multiset(),
            entries == views(hashed@),
            sorted_by_key::<HashedFile>(s),
            i <= n,
            i == 0 || i == n || s[i - 1].hash != s[i as int].hash,
            forall|k: int|
                0 <= k < groups.len() ==> is_duplicate_group(s, #[trigger] views(groups@)[k]),
            forall|k: int, l: int|
                0 <= k < l < groups.len() ==> hash_lt(
                    (#[trigger] views(groups@)[k]).hash,
                    (#[trigger] views(groups@)[l]).hash,
                ),
            forall|k: int|
                0 <= k < groups.len() && i < n ==> hash_lt(
                    (#[trigger] views(groups@)[k]).hash,
                    s[i as int].hash,
                ),
            forall|q: int|
                0 <= q < i && with_hash(s, (#[trigger] s[q]).hash).len() >= 2 ==> exists|k: int|
                    0 <= k < groups.len() && (#[trigger] views(groups@)[k]).hash == s[q].hash,
            unique_paths(s) ==> forall|q: int|
                0 <= q < i && with_hash(s, (#[trigger] s[q]).hash).len() >= 2
                    && leads_its_digest(s, s[q]) ==> s[q].file.size * (with_hash(s, s[q].hash).len()
                    - 1) <= u64::MAX,
        decreases n - i,
    {
        let h = sorted[i].hash;
        let mut j: usize = i + 1;
        while j < n && sorted[j].hash == h
            invariant
                n == sorted.len(),
                s == views(sorted@),
                i < j <= n,
                h == s[i as int].hash,
                forall|q: int| i <= q < j ==> (#[trigger] s[q]).hash == h,
            decreases n - j,
        {
            j = j + 1;
        }
        proof {
            lemma_run_is_digest_class(s, i as int, j as int, h);
        }
        let ghost old_groups = views(groups@);
        if j - i >= 2 {
            let mut files: Vec<FileInfo> = Vec::new();
            let mut q: usize = i;
            while q < j
                invariant
                    n == sorted.len(),
                    s == views(sorted@),
                    i <= q <= j <= n,
                    views(files@) =~= s.subrange(i as int, q as int).map_values(
                        |e: HashedView| e.file,
                    ),
                decreases j - q,
            {
                let f = sorted[q].file.clone();
                let ghost old_files = files@;
                files.push(f);
                proof {
                    assert(views(files@) =~= views(old_files).push(f@));
                    assert(s.subrange(i as int, q + 1) =~= s.subrange(i as int, q as int).push(
                        s[q as int],
                    ));
                }
                q = q + 1;
            }
            let count: u64 = (j - i - 1) as u64;
            let reclaimable = match sorted[i].file.size.checked_mul(count) {
                Some(b) => b,
                None => {
                    proof {
                        let e = s[i as int];
                        assert(s.contains(e));
                        assert(entries.contains(e)) by {
                            assert(s.to_multiset().count(e) > 0);
                        }
                        lemma_filter_permutation(s, entries, |x: HashedView| x.hash == h);
                        assert(with_hash(entries, h).len() == with_hash(s, h).len()) by {
                            assert(with_hash(entries, h).to_multiset().len() == with_hash(
                                s,
                                h,
                            ).to_multiset().len());
                        }
                        assert forall|e2: HashedView|
                            entries.contains(e2) && e2.hash == e.hash implies path_le(
                            e.file.path,
                            #[trigger] e2.file.path,
                        ) by {
                            assert(entries.to_multiset().count(e2) > 0);
                            assert(s.contains(e2));
                            let q2 = choose|q2: int| 0 <= q2 < s.len() && s[q2] == e2;
                            if q2 == i {
                                lemma_path_le_reflexive(e.file.path);
                            } else {
                                assert(HashedFile::ordered(s[i as int], s[q2]));
                            }
                        }
                        assert(reclaim_overflows(entries, e));
                    }
                    return None;
                },
            };
            let group = DuplicateGroup { hash: h, files, reclaimable_bytes: reclaimable };
            proof {
                let g = group@;
                assert(group_entries(g) =~= s.subrange(i as int, j as int));
                assert forall|a: int, b: int| 0 <= a < b < g.files.len() implies path_le(
                    #[trigger] g.files[a].path,
                    #[trigger] g.files[b].path,
                ) by {
                    assert(g.files[a] == s[i + a].file);
                    assert(g.files[b] == s[i + b].file);
                    assert(HashedFile::ordered(s[i + a], s[i + b]));
                }
                assert(g.files[0] == s[i as int].file);
                assert(is_duplicate_group(s, g));
            }
            groups.push(group);
            proof {
                assert(views(groups@) =~= old_groups.push(group@));
            }
        }
        proof {
            let gs = views(groups@);
            assert(with_hash(s, h).len() == j - i);
            if unique_paths(s) {
                assert forall|q: int|
                    0 <= q < j && with_hash(s, (#[trigger] s[q]).hash).len() >= 2
                        && leads_its_digest(s, s[q]) implies s[q].file.size * (with_hash(
                    s,
                    s[q].hash,
                ).len() - 1) <= u64::MAX by {
                    if q >= i && q != i {
                        assert(s.contains(s[i as int]));
                        assert(path_le(s[q].file.path, s[i as int].file.path));
                        assert(HashedFile::ordered(s[i as int], s[q]));
                        crate::order::lemma_path_le_antisymmetric(
                            s[q].file.path,
                            s[i as int].file.path,
                        );
                    }
                }
            }
            if j < n {
                assert(HashedFile::ordered(s[j - 1], s[j as int]));
                assert(hash_lt(h, s[j as int].hash));
            }
            assert forall|q: int|
                0 <= q < j && with_hash(s, (#[trigger] s[q]).hash).len() >= 2 implies exists|
                k: int,
            | 0 <= k < gs.len() && (#[trigger] gs[k]).hash == s[q].hash by {
                if q < i {
                    let k = choose|k: int|
                        0 <= k < old_groups.len() && (#[trigger] old_groups[k]).hash == s[q].hash;
                    assert(gs[k] == old_groups[k]);
                } else {
                    assert(s[q].hash == h);
                    assert(gs[gs.len() - 1].hash == h);
                }
            }
            assert forall|k: int| 0 <= k < gs.len() implies is_duplicate_group(
                s,
                #[trigger] gs[k],
            ) by {
                if k < old_groups.len() {
                    assert(gs[k] == old_groups[k]);
                }
            }
            assert forall|k: int, l: int| 0 <= k < l < gs.len() implies hash_lt(
                (#[trigger] gs[k]).hash,
                (#[trigger] gs[l]).hash,
            ) by {
                assert(gs[k] == old_groups[k]);
                if l < old_groups.len() {
                    assert(gs[l] == old_groups[l]);
                }
            }
        }
        i = j;
    }
    proof {
        let gs = views(groups@);
        assert forall|k: int| 0 <= k < gs.len() implies is_duplicate_group(
            entries,
            #[trigger] gs[k],
        ) by {
            lemma_filter_permutation(s, entries, |x: HashedView| x.hash == gs[k].hash);
            assert(is_duplicate_group(s, gs[k]));
        }
    }
    proof {
        if unique_paths(entries) {
            lemma_distinct_keys_permutation(entries, s, |e: HashedView| e.file.path);
            assert(unique_paths(s));
            assert forall|e: HashedView| !reclaim_overflows(entries, e) by {
                if reclaim_overflows(entries, e) {
                    assert(entries.to_multiset().count(e) > 0);
                    assert(s.contains(e));
                    let q = choose|q: int| 0 <= q < s.len() && s[q] == e;
                    lemma_filter_permutation(s, entries, |x: HashedView| x.hash == e.hash);
                    assert(with_hash(s, e.hash).to_multiset().len() == with_hash(
                        entries,
                        e.hash,
                    ).to_multiset().len());
                    assert forall|e2: HashedView|
                        s.contains(e2) && e2.hash == e.hash implies path_le(
                        e.file.path,
                        #[trigger] e2.file.path,
                    ) by {
                        assert(s.to_multiset().count(e2) > 0);
                        assert(entries.contains(e2));
                    }
                    assert(leads_its_digest(s, s[q]));
                }
            }
        }
    }
    let ghost unsorted = views(groups@);
    let result = sort_by_key(groups);
    proof {
        let gs = views(result@);
        assert forall|k: int| 0 <= k < gs.len() implies is_duplicate_group(
            entries,
            #[trigger] gs[k],
        ) by {
            assert(gs.contains(gs[k]));
            assert(unsorted.to_multiset().count(gs[k]) > 0);
            assert(unsorted.contains(gs[k]));
        }
        assert forall|k: int, l: int|
            0 <= k < unsorted.len() && 0 <= l < unsorted.len() && k != l implies (
            #[trigger] unsorted[k]).hash != (#[trigger] unsorted[l]).hash by {
            if k < l {
                assert(hash_lt(unsorted[k].hash, unsorted[l].hash));
            } else {
                assert(hash_lt(unsorted[l].hash, unsorted[k].hash));
            }
        }
        lemma_distinct_keys_permutation(unsorted, gs, |g: GroupView| g.hash);
        assert forall|e: HashedView|
            entries.contains(e) && with_hash(entries, e.hash).len() >= 2 implies exists|k: int|
            0 <= k < gs.len() && (#[trigger] gs[k]).hash == e.hash by {
            assert(entries.to_multiset().count(e) > 0);
            assert(s.contains(e));
            let q = choose|q: int| 0 <= q < s.len() && s[q] == e;
            lemma_filter_permutation(s, entries, |x: HashedView| x.hash == e.hash);
            assert(with_hash(s, e.hash).to_multiset().len() == with_hash(
                entries,
                e.hash,
            ).to_multiset().len());
            let k = choose|k: int| 0 <= k < unsorted.len() && (#[trigger] unsorted[k]).hash == s[q].hash;
            assert(unsorted.contains(unsorted[k]));
            assert(gs.to_multiset().count(unsorted[k]) > 0);
            assert(gs.contains(unsorted[k]));
            let k2 = choose|k2: int| 0 <= k2 < gs.len() && gs[k2] == unsorted[k];
            assert(gs[k2].hash == e.hash);
        }
    }
    Some(result)
}

/// Entries of distinct paths are told apart by their path.
proof fn lemma_same_path_same_entry(entries: Seq<HashedView>, a: HashedView, b: HashedView)
    requires
        unique_paths(entries),
        entries.contains(a),
        entries.contains(b),
        a.file.path == b.file.path,
    ensures
        a == b,
{
    let p = choose|p: int| 0 <= p < entries.len() && entries[p] == a;
    let q = choose|q: int| 0 <= q < entries.len() && entries[q] == b;
    if p != q {
        assert(entries[p].file.path != entries[q].file.path);
    }
}

/// Every file of a group is an entry with the group's digest.
proof fn lemma_group_member(entries: Seq<HashedView>, g: GroupView, i: int)
    requires
        is_duplicate_group(entries, g),
        0 <= i < g.files.len(),
    ensures
        entries.contains(HashedView { hash: g.hash, file: g.files[i] }),
        entries.contains(group_entries(g)[i]),
        group_entries(g)[i] == (HashedView { hash: g.hash, file: g.files[i] }),
{
    let ge = group_entries(g);
    let x = ge[i];
    assert(ge.contains(x));
    assert(with_hash(entries, g.hash).to_multiset().count(x) > 0);
    assert(with_hash(entries, g.hash).contains(x));
    entries.lemma_filter_contains_rev(|e: HashedView| e.hash == g.hash, x);
}

/// Groups of one digest in reports of entries with the same elements are
/// equal, when the entries have distinct paths.
proof fn lemma_group_determined(
    e1: Seq<HashedView>,
    e2: Seq<HashedView>,
    ga: GroupView,
    gb: GroupView,
)
    requires
        e1.to_multiset() == e2.to_multiset(),
        unique_paths(e1),
        is_duplicate_group(e1, ga),
        is_duplicate_group(e2, gb),
        ga.hash == gb.hash,
    ensures
        ga == gb,
{
    let h = ga.hash;
    lemma_filter_permutation(e1, e2, |x: HashedView| x.hash == h);
    let xa = group_entries(ga);
    let xb = group_entries(gb);
    let le = |a: HashedView, b: HashedView| path_le(a.file.path, b.file.path);
    assert forall|i: int, j: int| 0 <= i < j < xa.len() implies #[trigger] le(xa[i], xa[j]) by {
        assert(path_le(ga.files[i].path, ga.files[j].path));
    }
    assert forall|i: int, j: int| 0 <= i < j < xb.len() implies #[trigger] le(xb[i], xb[j]) by {
        assert(path_le(gb.files[i].path, gb.files[j].path));
    }
    assert forall|a: HashedView, b: HashedView|
        xa.contains(a) && xa.contains(b) && #[trigger] le(a, b) && #[trigger] le(b, a) implies a
        == b by {
        let p = choose|p: int| 0 <= p < xa.len() && xa[p] == a;
        let q = choose|q: int| 0 <= q < xa.len() && xa[q] == b;
        lemma_group_member(e1, ga, p);
        lemma_group_member(e1, ga, q);
        crate::order::lemma_path_le_antisymmetric(a.file.path, b.file.path);
        lemma_same_path_same_entry(e1, a, b);
    }
    lemma_sorted_same_elements_equal(xa, xb, le);
    assert(ga.files =~= gb.files) by {
        assert(ga.files.len() == xa.len());
        assert forall|i: int| 0 <= i < ga.files.len() implies ga.files[i] == gb.files[i] by {
            assert(xa[i].file == ga.files[i]);
            assert(xb[i].file == gb.files[i]);
        }
    }
}

/// A report holds each of its groups once.
proof fn lemma_report_counts_once(entries: Seq<HashedView>, groups: Seq<GroupView>, g: GroupView)
    requires
        is_duplicate_report(entries, groups),
    ensures
        groups.to_multiset().count(g) == if groups.contains(g) {
            1nat
        } else {
            0nat
        },
{
    if groups.to_multiset().count(g) >= 2 {
        let (k, l) = lemma_count_two_positions(groups, g);
        assert(groups[k].hash != groups[l].hash);
    }
}

/// The report does not depend on the order of the entries: for entries with
/// distinct paths, two reports of entries with the same elements are equal,
/// group for group and file for file.
pub proof fn lemma_report_is_determined(
    e1: Seq<HashedView>,
    e2: Seq<HashedView>,
    g1: Seq<GroupView>,
    g2: Seq<GroupView>,
)
    requires
        e1.to_multiset() == e2.to_multiset(),
        unique_paths(e1),
        is_duplicate_report(e1, g1),
        is_duplicate_report(e2, g2),
    ensures
        g1 == g2,
{
    lemma_distinct_keys_permutation(e1, e2, |e: HashedView| e.file.path);
    assert(unique_paths(e2));
    // Every group of one report is a group of the other.
    assert forall|g: GroupView| g1.contains(g) implies g2.contains(g) by {
        lemma_report_group_in_other(e1, e2, g1, g2, g);
    }
    assert forall|g: GroupView| g2.contains(g) implies g1.contains(g) by {
        lemma_report_group_in_other(e2, e1, g2, g1, g);
    }
    assert forall|g: GroupView| g1.to_multiset().count(g) == g2.to_multiset().count(g) by {
        lemma_report_counts_once(e1, g1, g);
        lemma_report_counts_once(e2, g2, g);
    }
    assert(g1.to_multiset() =~= g2.to_multiset());
    let le = |a: GroupView, b: GroupView| DuplicateGroup::ordered(a, b);
    assert forall|i: int, j: int| 0 <= i < j < g1.len() implies #[trigger] le(g1[i], g1[j]) by {
        assert(DuplicateGroup::ordered(g1[i], g1[j]));
    }
    assert forall|i: int, j: int| 0 <= i < j < g2.len() implies #[trigger] le(g2[i], g2[j]) by {
        assert(DuplicateGroup::ordered(g2[i], g2[j]));
    }
    assert forall|a: GroupView, b: GroupView|
        g1.contains(a) && g1.contains(b) && #[trigger] le(a, b) && #[trigger] le(b, a) implies a
        == b by {
        let k = choose|k: int| 0 <= k < g1.len() && g1[k] == a;
        let l = choose|l: int| 0 <= l < g1.len() && g1[l] == b;
        assert(is_duplicate_group(e1, a));
        assert(is_duplicate_group(e1, b));
        crate::order::lemma_path_le_antisymmetric(first_path(a), first_path(b));
        lemma_group_member(e1, a, 0);
        lemma_group_member(e1, b, 0);
        lemma_same_path_same_entry(
            e1,
            HashedView { hash: a.hash, file: a.files[0] },
            HashedView { hash: b.hash, file: b.files[0] },
        );
        if k != l {
            assert(g1[k].hash != g1[l].hash);
        }
    }
    lemma_sorted_same_elements_equal(g1, g2, le);
}

proof fn lemma_report_group_in_other(
    e1: Seq<HashedView>,
    e2: Seq<HashedView>,
    g1: Seq<GroupView>,
    g2: Seq<GroupView>,
    g: GroupView,
)
    requires
        e1.to_multiset() == e2.to_multiset(),
        unique_paths(e1),
        is_duplicate_report(e1, g1),
        is_duplicate_report(e2, g2),
        g1.contains(g),
    ensures
        g2.contains(g),
{
    let k = choose|k: int| 0 <= k < g1.len() && g1[k] == g;
    assert(is_duplicate_group(e1, g));
    let h = g.hash;
    lemma_group_member(e1, g, 0);
    let e = group_entries(g)[0];
    assert(e.hash == h);
    lemma_filter_permutation(e1, e2, |x: HashedView| x.hash == h);
    assert(group_entries(g).to_multiset().len() == group_entries(g).len());
    assert(with_hash(e1, h).to_multiset().len() == with_hash(e1, h).len());
    assert(with_hash(e2, h).to_multiset().len() == with_hash(e2, h).len());
    assert(with_hash(e2, h).len() >= 2);
    assert(e1.to_multiset().count(e) > 0);
    assert(e2.contains(e));
    let k2 = choose|k2: int| 0 <= k2 < g2.len() && (#[trigger] g2[k2]).hash == e.hash;
    assert(is_duplicate_group(e2, g2[k2]));
    lemma_group_determined(e1, e2, g, g2[k2]);
    assert(g2.contains(g2[k2]));
}

/// A report lists groups by reclaimable bytes, most first, and groups that
/// free the same bytes by the path of their first file.
pub proof fn lemma_report_order(entries: Seq<HashedView>, groups: Seq<GroupView>)
    requires
        is_duplicate_report(entries, groups),
    ensures
        forall|k: int, l: int|
            0 <= k < l < groups.len() ==> (#[trigger] groups[k]).reclaimable_bytes
                >= (#[trigger] groups[l]).reclaimable_bytes && (groups[k].reclaimable_bytes
                == groups[l].reclaimable_bytes ==> path_le(
                groups[k].files[0].path,
                groups[l].files[0].path,
            )),
{
    assert forall|k: int, l: int| 0 <= k < l < groups.len() implies (
    #[trigger] groups[k]).reclaimable_bytes >= (#[trigger] groups[l]).reclaimable_bytes && (
    groups[k].reclaimable_bytes == groups[l].reclaimable_bytes ==> path_le(
        groups[k].files[0].path,
        groups[l].files[0].path,
    )) by {
        assert(DuplicateGroup::ordered(groups[k], groups[l]));
        assert(is_duplicate_group(entries, groups[k]));
        assert(is_duplicate_group(entries, groups[l]));
    }
}

/// Any two entries with one digest are reported: a group of that digest
/// exists, and every group holds at least two files, all entries of its
/// digest.
pub proof fn lemma_report_covers_pairs(entries: Seq<HashedView>, groups: Seq<GroupView>)
    requires
        is_duplicate_report(entries, groups),
    ensures
        forall|i: int, j: int|
            0 <= i < entries.len() && 0 <= j < entries.len() && i != j && (#[trigger] entries[i]).hash
                == (#[trigger] entries[j]).hash ==> exists|k: int|
                0 <= k < groups.len() && (#[trigger] groups[k]).hash == entries[i].hash,
        forall|k: int, m: int|
            0 <= k < groups.len() && 0 <= m < (#[trigger] groups[k]).files.len() ==> entries.contains(
                HashedView { hash: groups[k].hash, file: #[trigger] groups[k].files[m] },
            ) && groups[k].files.len() >= 2,
{
    assert forall|i: int, j: int|
        0 <= i < entries.len() && 0 <= j < entries.len() && i != j && (#[trigger] entries[i]).hash
            == (#[trigger] entries[j]).hash implies exists|k: int|
        0 <= k < groups.len() && (#[trigger] groups[k]).hash == entries[i].hash by {
        let h = entries[i].hash;
        crate::seqs::lemma_filter_two(entries, |e: HashedView| e.hash == h, i, j);
        assert(entries.contains(entries[i]));
    }
    assert forall|k: int, m: int|
        0 <= k < groups.len() && 0 <= m < (#[trigger] groups[k]).files.len() implies entries.contains(
        HashedView { hash: groups[k].hash, file: #[trigger] groups[k].files[m] },
    ) && groups[k].files.len() >= 2 by {
        assert(is_duplicate_group(entries, groups[k]));
        lemma_group_member(entries, groups[k], m);
    }
}

/// Adding a group adds its reclaimable bytes to the total.
pub proof fn lemma_total_reclaimable_adds(groups: Seq<GroupView>, g: GroupView)
    ensures
        total_reclaimable_spec(groups.push(g)) == total_reclaimable_spec(groups)
            + g.reclaimable_bytes,
        total_reclaimable_spec(Seq::<GroupView>::empty()) == 0,
{
    assert(groups.push(g).drop_last() =~= groups);
}

/// When entries of one digest have one size, so does every group of the
/// report: the deletion laws of `delete` then apply to it.
pub proof fn lemma_groups_have_one_size(entries: Seq<HashedView>, groups: Seq<GroupView>)
    requires
        is_duplicate_report(entries, groups),
        forall|a: HashedView, b: HashedView|
            entries.contains(a) && entries.contains(b) && a.hash == b.hash ==> #[trigger] a.file.size
                == #[trigger] b.file.size,
    ensures
        forall|k: int| 0 <= k < groups.len() ==> crate::delete::uniform_size(#[trigger] groups[k].files),
        forall|k: int|
            0 <= k < groups.len() ==> (#[trigger] groups[k]).reclaimable_bytes
                == crate::delete::bytes_except(groups[k].files, 0),
{
    assert forall|k: int| 0 <= k < groups.len() implies crate::delete::uniform_size(
        #[trigger] groups[k].files,
    ) && groups[k].reclaimable_bytes == crate::delete::bytes_except(groups[k].files, 0) by {
        let g = groups[k];
        assert(is_duplicate_group(entries, g));
        assert forall|j: int| 0 <= j < g.files.len() implies (#[trigger] g.files[j]).size
            == g.files[0].size by {
            lemma_group_member(entries, g, j);
            lemma_group_member(entries, g, 0);
            let a = HashedView { hash: g.hash, file: g.files[j] };
            let b = HashedView { hash: g.hash, file: g.files[0] };
            assert(a.file.size == b.file.size);
        }
        crate::delete::lemma_deleting_frees_reclaimable(g, 0);
    }
}

/// The sum of the groups' reclaimable bytes.
pub open spec fn total_reclaimable_spec(groups: Seq<GroupView>) -> int
    decreases groups.len(),
{
    if groups.len() == 0 {
        0
    } else {
        total_reclaimable_spec(groups.drop_last()) + groups.last().reclaimable_bytes
    }
}

proof fn lemma_total_reclaimable_prefix(groups: Seq<GroupView>, k: int)
    requires
        0 <= k <= groups.len(),
    ensures
        0 <= total_reclaimable_spec(groups.take(k)) <= total_reclaimable_spec(groups),
    decreases groups.len() - k,
{
    lemma_total_reclaimable_nonneg(groups.take(k));
    if k < groups.len() {
        lemma_total_reclaimable_prefix(groups, k + 1);
        assert(groups.take(k + 1).drop_last() =~= groups.take(k));
    } else {
        assert(groups.take(k) =~= groups);
    }
}

proof fn lemma_total_reclaimable_nonneg(groups: Seq<GroupView>)
    ensures
        total_reclaimable_spec(groups) >= 0,
    decreases groups.len(),
{
    if groups.len() > 0 {
        lemma_total_reclaimable_nonneg(groups.drop_last());
    }
}

/// The bytes that deleting all duplicates would free: the sum of the groups'
/// reclaimable bytes; `None` when it does not fit in a `u64`.
pub fn total_reclaimable(groups: &Vec<DuplicateGroup>) -> (r: Option<u64>)
    ensures
        r is Some <==> total_reclaimable_spec(views(groups@)) <= u64::MAX,
        r matches Some(t) ==> t == total_reclaimable_spec(views(groups@)),
{
    let ghost gs = views(groups@);
    let mut sum: u64 = 0;
    let mut i: usize = 0;
    while i < groups.len()
        invariant
            gs == views(groups@),
            i <= groups.len(),
            sum == total_reclaimable_spec(gs.take(i as int)),
        decreases groups.len() - i,
    {
        assert(gs.take(i + 1).drop_last() =~= gs.take(i as int));
        assert(gs.take(i + 1).last() == gs[i as int]);
        match sum.checked_add(groups[i].reclaimable_bytes) {
            Some(t) => sum = t,
            None => {
                proof {
                    lemma_total_reclaimable_prefix(gs, i + 1);
                }
                return None;
            },
        }
        i = i + 1;
    }
    assert(gs.take(groups.len() as int) =~= gs);
    Some(sum)
}

} // verus!

