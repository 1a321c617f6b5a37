//! Plans a copy of a directory tree that skips contents already present.
//!
//! Paths here are canonical: absolute, without `.` or `..` components and
//! without repeated or trailing separators, except the root itself.
use std::collections::HashMap;

use vstd::prelude::*;

use crate::model::{ContentHash, CopyStats, FileInfo, FileView, HashedFile, HashedView};
use crate::order::{
    lemma_path_le_total, lemma_path_le_transitive, path_le, path_le_exec, sort_by_key, views,
    SortKey, SEPARATOR,
};

verus! {

broadcast use {
    vstd::seq_lib::group_to_multiset_ensures,
    vstd::multiset::group_multiset_axioms,
    vstd::std_specs::hash::group_hash_axioms,
};

impl SortKey for FileInfo {
    /// Files sort by path.
    open spec fn ordered(a: FileView, b: FileView) -> bool {
        path_le(a.path, b.path)
    }

    proof fn lemma_ordered_total(a: FileView, b: FileView) {
        lemma_path_le_total(a.path, b.path);
    }

    proof fn lemma_ordered_transitive(a: FileView, b: FileView, c: FileView) {
        lemma_path_le_transitive(a.path, b.path, c.path);
    }

    fn ordered_before(&self, other: &Self) -> (r: bool) {
        path_le_exec(&self.path, &other.path)
    }
}

/// Sorts files by path.
pub fn sort_by_path(files: Vec<FileInfo>) -> (r: Vec<FileInfo>)
    ensures
        views(r@).to_multiset() == views(files@).to_multiset(),
        forall|i: int, j: int|
            0 <= i < j < r.len() ==> path_le(
                #[trigger] views(r@)[i].path,
                #[trigger] views(r@)[j].path,
            ),
{
    let r = sort_by_key(files);
    assert forall|i: int, j: int| 0 <= i < j < r.len() implies path_le(
        #[trigger] views(r@)[i].path,
        #[trigger] views(r@)[j].path,
    ) by {
        assert(FileInfo::ordered(views(r@)[i], views(r@)[j]));
    }
    r
}

/// `path` lies in the tree rooted at `root`: the components of `root` are the
/// first components of `path`.
pub open spec fn within(root: Seq<u8>, path: Seq<u8>) -> bool {
    &&& root.len() <= path.len()
    &&& path.subrange(0, root.len() as int) == root
    &&& {
        ||| root.len() == 0
        ||| root.len() == path.len()
        ||| path[root.len() as int] == SEPARATOR
        ||| root.last() == SEPARATOR
    }
}

/// Two trees overlap when either root lies in the other tree.
pub open spec fn overlapping(a: Seq<u8>, b: Seq<u8>) -> bool {
    within(a, b) || within(b, a)
}

/// The part of `path` below `root`, without a leading separator.
pub open spec fn relative_to(root: Seq<u8>, path: Seq<u8>) -> Seq<u8> {
    let rest = path.subrange(root.len() as int, path.len() as int);
    if rest.len() > 0 && rest[0] == SEPARATOR {
        rest.drop_first()
    } else {
        rest
    }
}

/// `rel` appended to `base` with one separator between them.
pub open spec fn joined(base: Seq<u8>, rel: Seq<u8>) -> Seq<u8> {
    if base.len() == 0 {
        rel
    } else if base.last() == SEPARATOR {
        base + rel
    } else {
        base.push(SEPARATOR) + rel
    }
}

/// Whether `path` lies in the tree rooted at `root`.
pub fn is_within(root: &Vec<u8>, path: &Vec<u8>) -> (r: bool)
    ensures
        r == within(root@, path@),
{
    let n = root.len();
    if n > path.len() {
        return false;
    }
    let mut i: usize = 0;
    while i < n
        invariant
            n == root.len(),
            n <= path.len(),
            i <= n,
            forall|k: int| 0 <= k < i ==> path@[k] == root@[k],
        decreases n - i,
    {
        if root[i] != path[i] {
            assert(path@.subrange(0, n as int)[i as int] != root@[i as int]);
            return false;
        }
        i = i + 1;
    }
    assert(path@.subrange(0, n as int) =~= root@);
    n == 0 || n == path.len() || path[n] == SEPARATOR || root[n - 1] == SEPARATOR
}

/// Whether two trees overlap, so that copying one into the other would
/// read what it writes.
pub fn trees_overlap(source: &Vec<u8>, destination: &Vec<u8>) -> (r: bool)
    ensures
        r == overlapping(source@, destination@),
{
    is_within(source, destination) || is_within(destination, source)
}

/// Where a file of the source tree goes in the destination tree: its path
/// relative to `source`, joined to `destination`; `None` when the file does
/// not lie in the source tree.
pub fn relative_target(source: &Vec<u8>, destination: &Vec<u8>, path: &Vec<u8>) -> (r: Option<
    Vec<u8>,
>)
    ensures
        r is Some <==> within(source@, path@),
        r matches Some(t) ==> t@ == joined(destination@, relative_to(source@, path@)),
{
    if !is_within(source, path) {
        return None;
    }
    let n = source.len();
    let mut start = n;
    if n < path.len() && path[n] == SEPARATOR {
        start = n + 1;
    }
    let mut target: Vec<u8> = Vec::new();
    let mut i: usize = 0;
    while i < destination.len()
        invariant
            i <= destination.len(),
            target@ == destination@.subrange(0, i as int),
        decreases destination.len() - i,
    {
        target.push(destination[i]);
        assert(destination@.subrange(0, i + 1) =~= destination@.subrange(0, i as int).push(
            destination@[i as int],
        ));
        i = i + 1;
    }
    assert(destination@.subrange(0, destination.len() as int) =~= destination@);
    if destination.len() > 0 && destination[destination.len() - 1] != SEPARATOR {
        target.push(SEPARATOR);
    }
    let ghost base = target@;
    let mut k: usize = start;
    while k < path.len()
        invariant
            start <= k <= path.len(),
            target@ == base + path@.subrange(start as int, k as int),
        decreases path.len() - k,
    {
        target.push(path[k]);
        assert(path@.subrange(start as int, k + 1) =~= path@.subrange(start as int, k as int).push(
            path@[k as int],
        ));
        k = k + 1;
    }
    proof {
        let rest = path@.subrange(n as int, path@.len() as int);
        let rel = relative_to(source@, path@);
        if start == n + 1 {
            assert(rest[0] == SEPARATOR);
            assert(rel =~= path@.subrange(start as int, path@.len() as int));
        } else {
            assert(rel =~= path@.subrange(start as int, path@.len() as int));
        }
        if destination@.len() == 0 {
            assert(base =~= Seq::<u8>::empty());
            assert(target@ =~= joined(destination@, rel));
        } else if destination@.last() == SEPARATOR {
            assert(target@ =~= joined(destination@, rel));
        } else {
            assert(target@ =~= joined(destination@, rel));
        }
    }
    Some(target)
}

/// The source entries whose content is neither among `existing` nor in an
/// earlier source entry, in source order: the files a duplicate-aware copy
/// writes.
pub open spec fn new_contents(existing: Seq<ContentHash>, sources: Seq<HashedView>) -> Seq<
    HashedView,
>
    decreases sources.len(),
{
    if sources.len() == 0 {
        Seq::empty()
    } else {
        let earlier = sources.drop_last();
        let e = sources.last();
        let prev = new_contents(existing, earlier);
        if existing.contains(e.hash) || digests(earlier).contains(e.hash) {
            prev
        } else {
            prev.push(e)
        }
    }
}

/// The digests of a sequence of entries.
pub open spec fn digests(entries: Seq<HashedView>) -> Seq<ContentHash> {
    entries.map_values(|e: HashedView| e.hash)
}

/// A file to copy and where it goes.
#[derive(Debug)]
pub struct PlannedCopy {
    /// The source file.
    pub file: FileInfo,
    /// Its path in the destination, or `None` when it lies outside the source
    /// tree.
    pub target: Option<Vec<u8>>,
}

/// The files to copy, in source order, and how many source files there were.
#[derive(Debug)]
pub struct CopyPlan {
    pub copies: Vec<PlannedCopy>,
    pub source_count: usize,
}

/// Why a copy cannot be planned.
#[derive(Debug, PartialEq, Eq, Structural, Clone, Copy)]
pub enum CopyError {
    /// The source and destination trees overlap.
    Overlap,
}

/// A planned copy's target matches its file: the file's path relative to
/// `source`, joined to `destination`, or `None` outside the source tree.
pub open spec fn target_for(
    source: Seq<u8>,
    destination: Seq<u8>,
    path: Seq<u8>,
    target: Option<Vec<u8>>,
) -> bool {
    match target {
        Some(t) => within(source, path) && t@ == joined(destination, relative_to(source, path)),
        None => !within(source, path),
    }
}

/// Digests already seen, split by their high half: `seen@[hi]` lists the low
/// halves seen with that high half.
spec fn seen_has(seen: Map<u128, Vec<u128>>, h: ContentHash) -> bool {
    seen.contains_key(h.hi) && seen[h.hi]@.contains(h.lo)
}

fn seen_contains(seen: &HashMap<u128, Vec<u128>>, h: ContentHash) -> (r: bool)
    ensures
        r == seen_has(seen@, h),
{
    match seen.get(&h.hi) {
        Some(lows) => {
            assert(seen@.contains_key(h.hi) && seen@[h.hi] == *lows);
            let mut k: usize = 0;
            while k < lows.len()
                invariant
                    seen@.contains_key(h.hi) && seen@[h.hi] == *lows,
                    k <= lows.len(),
                    forall|m: int| 0 <= m < k ==> lows@[m] != h.lo,
                decreases lows.len() - k,
            {
                if lows[k] == h.lo {
                    assert(lows@[k as int] == h.lo);
                    assert(lows@.contains(h.lo));
                    return true;
                }
                k = k + 1;
            }
            false
        },
        None => false,
    }
}

fn seen_insert(seen: &mut HashMap<u128, Vec<u128>>, h: ContentHash)
    ensures
        forall|x: ContentHash| #[trigger]
            seen_has(final(seen)@, x) <==> seen_has(old(seen)@, x) || x == h,
{
    let mut lows = match seen.remove(&h.hi) {
        Some(lows) => lows,
        None => Vec::new(),
    };
    let ghost before = lows@;
    lows.push(h.lo);
    seen.insert(h.hi, lows);
    assert forall|x: ContentHash| #[trigger]
        seen_has(seen@, x) <==> seen_has(old(seen)@, x) || x == h by {
        if x.hi == h.hi {
            assert(lows@ == before.push(h.lo));
            assert(before.push(h.lo).contains(x.lo) <==> before.contains(x.lo) || x.lo == h.lo) by {
                if before.push(h.lo).contains(x.lo) {
                    let m = choose|m: int| 0 <= m < before.len() + 1 && before.push(h.lo)[m] == x.lo;
                    if m < before.len() {
                        assert(before[m] == x.lo);
                    }
                }
                if before.contains(x.lo) {
                    let m = choose|m: int| 0 <= m < before.len() && before[m] == x.lo;
                    assert(before.push(h.lo)[m] == x.lo);
                }
                assert(before.push(h.lo)[before.len() as int] == h.lo);
            }
        }
    }
}

/// Plans a duplicate-aware copy of the tree at `source` into the tree at
/// `destination`.
///
/// `existing` holds the digests of the files already in the destination and
/// `sources` the source files with their digests, in the order in which they
/// are considered (path order). A source file is copied only when its content
/// is neither in the destination nor in an earlier source file; its target is
/// its path relative to `source`, joined to `destination`. Overlapping trees
/// are refused.
pub fn copy_unique(
    source: &Vec<u8>,
    destination: &Vec<u8>,
    existing: &Vec<ContentHash>,
    sources: &Vec<HashedFile>,
) -> (r: Result<CopyPlan, CopyError>)
    ensures
        r is Err <==> overlapping(source@, destination@),
        r matches Ok(plan) ==> {
            let fresh = new_contents(existing@, views(sources@));
            &&& plan.source_count == sources.len()
            &&& plan.copies.len() == fresh.len()
            &&& forall|k: int|
                0 <= k < fresh.len() ==> {
                    &&& (#[trigger] plan.copies@[k]).file@ == fresh[k].file
                    &&& target_for(source@, destination@, fresh[k].file.path, plan.copies@[k].target)
                }
        },
{
    if trees_overlap(source, destination) {
        return Err(CopyError::Overlap);
    }
    let ghost all = views(sources@);
    let mut seen: HashMap<u128, Vec<u128>> = HashMap::new();
    let mut i: usize = 0;
    while i < existing.len()
        invariant
            i <= existing.len(),
            forall|x: ContentHash| #[trigger]
                seen_has(seen@, x) <==> existing@.take(i as int).contains(x),
        decreases existing.len() - i,
    {
        seen_insert(&mut seen, existing[i]);
        proof {
            let t = existing@.take(i + 1);
            assert(t =~= existing@.take(i as int).push(existing@[i as int]));
            assert forall|x: ContentHash| #[trigger] seen_has(seen@, x) <==> t.contains(x) by {
                if t.contains(x) {
                    let m = choose|m: int| 0 <= m < t.len() && t[m] == x;
                    if m < i {
                        assert(existing@.take(i as int)[m] == x);
                    }
                }
                if existing@.take(i as int).contains(x) {
                    let m = choose|m: int| 0 <= m < i && existing@.take(i as int)[m] == x;
                    assert(t[m] == x);
                }
                assert(t[i as int] == existing@[i as int]);
            }
        }
        i = i + 1;
    }
    assert(existing@.take(existing.len() as int) =~= existing@);
    let mut copies: Vec<PlannedCopy> = Vec::new();
    let mut i: usize = 0;
    while i < sources.len()
        invariant
            all == views(sources@),
            i <= sources.len(),
            forall|x: ContentHash| #[trigger]
                seen_has(seen@, x) <==> existing@.contains(x) || digests(
                    all.take(i as int),
                ).contains(x),
            copies.len() == new_contents(existing@, all.take(i as int)).len(),
            forall|k: int|
                0 <= k < copies.len() ==> {
                    let fresh = new_contents(existing@, all.take(i as int));
                    &&& (#[trigger] copies@[k]).file@ == fresh[k].file
                    &&& target_for(source@, destination@, fresh[k].file.path, copies@[k].target)
                },
        decreases sources.len() - i,
    {
        let h = sources[i].hash;
        let ghost pre = all.take(i as int);
        let ghost post = all.take(i + 1);
        proof {
            assert(post.drop_last() =~= pre);
            assert(post.last() == all[i as int]);
            assert(digests(post) =~= digests(pre).push(h));
        }
        let is_seen = seen_contains(&seen, h);
        if !is_seen {
            let file = sources[i].file.clone();
            let target = relative_target(source, destination, &sources[i].file.path);
            let ghost old_copies = copies@;
            copies.push(PlannedCopy { file, target });
            seen_insert(&mut seen, h);
            proof {
                let fresh = new_contents(existing@, post);
                assert(fresh == new_contents(existing@, pre).push(all[i as int]));
                assert forall|k: int| 0 <= k < copies.len() implies {
                    &&& (#[trigger] copies@[k]).file@ == fresh[k].file
                    &&& target_for(source@, destination@, fresh[k].file.path, copies@[k].target)
                } by {
                    if k < old_copies.len() {
                        assert(copies@[k] == old_copies[k]);
                    }
                }
            }
        }
        proof {
            assert forall|x: ContentHash| #[trigger]
                seen_has(seen@, x) <==> existing@.contains(x) || digests(post).contains(x) by {
                let dp = digests(pre);
                if digests(post).contains(x) {
                    let m = choose|m: int| 0 <= m < dp.len() + 1 && digests(post)[m] == x;
                    if m < dp.len() {
                        assert(dp[m] == x);
                    }
                }
                if dp.contains(x) {
                    let m = choose|m: int| 0 <= m < dp.len() && dp[m] == x;
                    assert(digests(post)[m] == x);
                }
                assert(digests(post)[dp.len() as int] == h);
            }
        }
        i = i + 1;
    }
    assert(all.take(sources.len() as int) =~= all);
    Ok(CopyPlan { copies, source_count: sources.len() })
}

/// A duplicate-aware copy writes no content twice and none that the
/// destination already holds, and every file it writes is a source file.
pub proof fn lemma_copies_are_new(existing: Seq<ContentHash>, sources: Seq<HashedView>)
    ensures
        new_contents(existing, sources).len() <= sources.len(),
        forall|k: int|
            0 <= k < new_contents(existing, sources).len() ==> sources.contains(
                #[trigger] new_contents(existing, sources)[k],
            ) && !existing.contains(new_contents(existing, sources)[k].hash),
        forall|k: int, l: int|
            0 <= k < l < new_contents(existing, sources).len() ==> (#[trigger] new_contents(
                existing,
                sources,
            )[k]).hash != (#[trigger] new_contents(existing, sources)[l]).hash,
    decreases sources.len(),
{
    if sources.len() > 0 {
        let earlier = sources.drop_last();
        let e = sources.last();
        let prev = new_contents(existing, earlier);
        let fresh = new_contents(existing, sources);
        lemma_copies_are_new(existing, earlier);
        assert forall|k: int| 0 <= k < prev.len() implies sources.contains(#[trigger] prev[k]) by {
            let m = choose|m: int| 0 <= m < earlier.len() && earlier[m] == prev[k];
            assert(sources[m] == prev[k]);
        }
        if !(existing.contains(e.hash) || digests(earlier).contains(e.hash)) {
            assert(fresh == prev.push(e));
            assert(sources.contains(e)) by {
                assert(sources[sources.len() - 1] == e);
            }
            assert forall|k: int| 0 <= k < prev.len() implies (#[trigger] prev[k]).hash
                != e.hash by {
                let m = choose|m: int| 0 <= m < earlier.len() && earlier[m] == prev[k];
                assert(digests(earlier)[m] == prev[k].hash);
            }
            assert forall|k: int, l: int| 0 <= k < l < fresh.len() implies (
            #[trigger] fresh[k]).hash != (#[trigger] fresh[l]).hash by {
                if l < prev.len() {
                    assert(fresh[k] == prev[k] && fresh[l] == prev[l]);
                } else {
                    assert(fresh[k] == prev[k]);
                }
            }
        }
    }
}

/// Every source content ends up in the destination: it was there already, or
/// a copy writes it.
pub proof fn lemma_copies_cover_sources(existing: Seq<ContentHash>, sources: Seq<HashedView>)
    ensures
        forall|e: HashedView|
            sources.contains(e) ==> existing.contains(e.hash) || #[trigger] digests(
                new_contents(existing, sources),
            ).contains(e.hash),
    decreases sources.len(),
{
    if sources.len() > 0 {
        let earlier = sources.drop_last();
        let last = sources.last();
        let prev = new_contents(existing, earlier);
        let fresh = new_contents(existing, sources);
        lemma_copies_cover_sources(existing, earlier);
        assert(forall|h: ContentHash| digests(prev).contains(h) ==> digests(fresh).contains(h))
            by {
            assert forall|h: ContentHash| digests(prev).contains(h) implies digests(
                fresh,
            ).contains(h) by {
                let m = choose|m: int| 0 <= m < digests(prev).len() && digests(prev)[m] == h;
                if fresh != prev {
                    assert(fresh == prev.push(last));
                    assert(digests(fresh)[m] == h);
                }
            }
        }
        assert forall|e: HashedView| sources.contains(e) implies existing.contains(e.hash)
            || #[trigger] digests(fresh).contains(e.hash) by {
            let m = choose|m: int| 0 <= m < sources.len() && sources[m] == e;
            if m < sources.len() - 1 {
                assert(earlier[m] == e);
                assert(earlier.contains(e));
            } else if digests(earlier).contains(e.hash) {
                let q = choose|q: int| 0 <= q < earlier.len() && digests(earlier)[q] == e.hash;
                assert(earlier.contains(earlier[q]));
                assert(digests(prev).contains(earlier[q].hash) || existing.contains(earlier[q].hash));
            } else if !existing.contains(e.hash) {
                assert(fresh == prev.push(last));
                assert(digests(fresh)[prev.len() as int] == e.hash);
            }
        }
    }
}

/// When every source content is already among `existing`, a copy writes
/// nothing.
pub proof fn lemma_nothing_new(existing: Seq<ContentHash>, sources: Seq<HashedView>)
    requires
        forall|e: HashedView| sources.contains(e) ==> existing.contains(e.hash),
    ensures
        new_contents(existing, sources).len() == 0,
    decreases sources.len(),
{
    if sources.len() > 0 {
        let earlier = sources.drop_last();
        assert forall|e: HashedView| earlier.contains(e) implies existing.contains(e.hash) by {
            let m = choose|m: int| 0 <= m < earlier.len() && earlier[m] == e;
            assert(sources[m] == e);
            assert(sources.contains(e));
        }
        lemma_nothing_new(existing, earlier);
        assert(sources[sources.len() - 1] == sources.last());
        assert(sources.contains(sources.last()));
    }
}

/// Copying again changes nothing: when the destination now holds every
/// content it held before plus every content the first copy wrote, a second
/// copy of the same sources writes nothing.
pub proof fn lemma_second_copy_is_empty(
    existing: Seq<ContentHash>,
    sources: Seq<HashedView>,
    existing_after: Seq<ContentHash>,
)
    requires
        forall|h: ContentHash|
            existing.contains(h) || digests(new_contents(existing, sources)).contains(h)
                ==> #[trigger] existing_after.contains(h),
    ensures
        new_contents(existing_after, sources).len() == 0,
{
    lemma_copies_cover_sources(existing, sources);
    assert forall|e: HashedView| sources.contains(e) implies existing_after.contains(e.hash) by {
        assert(existing.contains(e.hash) || digests(new_contents(existing, sources)).contains(
            e.hash,
        ));
    }
    lemma_nothing_new(existing_after, sources);
}

/// A root contains only paths that start with all of its bytes, so two
/// trees overlap only when one root is a byte prefix of the other; in
/// particular two different roots of one length never overlap.
pub proof fn lemma_overlap_needs_prefix(a: Seq<u8>, b: Seq<u8>)
    ensures
        within(a, b) ==> a.len() <= b.len() && forall|i: int| 0 <= i < a.len() ==> b[i] == a[i],
        overlapping(a, b) ==> (a.len() <= b.len() && forall|i: int| 0 <= i < a.len() ==> b[i]
            == a[i]) || (b.len() <= a.len() && forall|i: int| 0 <= i < b.len() ==> a[i] == b[i]),
        a.len() == b.len() && a != b ==> !overlapping(a, b),
{
    if within(a, b) {
        assert forall|i: int| 0 <= i < a.len() implies b[i] == a[i] by {
            assert(b.subrange(0, a.len() as int)[i] == b[i]);
        }
    }
    if within(b, a) {
        assert forall|i: int| 0 <= i < b.len() implies a[i] == b[i] by {
            assert(a.subrange(0, b.len() as int)[i] == a[i]);
        }
    }
    if a.len() == b.len() && overlapping(a, b) {
        if within(a, b) {
            assert(b.subrange(0, a.len() as int) =~= b);
        } else {
            assert(a.subrange(0, b.len() as int) =~= a);
        }
    }
}

/// A root without a trailing separator contains a longer path exactly when
/// the path continues the root's bytes with a separator: `/a` contains `/a/b`
/// but not `/ab`.
pub proof fn lemma_within_needs_separator(root: Seq<u8>, path: Seq<u8>)
    requires
        root.len() > 0,
        root.last() != SEPARATOR,
        root.len() < path.len(),
        forall|i: int| 0 <= i < root.len() ==> path[i] == root[i],
    ensures
        within(root, path) <==> path[root.len() as int] == SEPARATOR,
{
    assert(path.subrange(0, root.len() as int) =~= root);
}

/// The target of a file is the destination followed by the file's bytes
/// after the source root: `/src/n/f` goes to `/dst/n/f`.
pub proof fn lemma_target_transplants_suffix(source: Seq<u8>, destination: Seq<u8>, path: Seq<u8>)
    requires
        within(source, path),
        source.len() > 0,
        source.last() != SEPARATOR,
        source.len() < path.len(),
        destination.len() > 0,
        destination.last() != SEPARATOR,
    ensures
        joined(destination, relative_to(source, path)) == destination + path.subrange(
            source.len() as int,
            path.len() as int,
        ),
{
    let rest = path.subrange(source.len() as int, path.len() as int);
    assert(rest[0] == path[source.len() as int]);
    assert(rest =~= seq![SEPARATOR] + rest.drop_first());
    assert(destination.push(SEPARATOR) + rest.drop_first() =~= destination + rest);
}

/// One more source entry is planned last when its content is new, and
/// changes nothing otherwise.
pub proof fn lemma_new_contents_push(
    existing: Seq<ContentHash>,
    sources: Seq<HashedView>,
    e: HashedView,
)
    ensures
        new_contents(existing, sources.push(e)) == if existing.contains(e.hash) || exists|i: int|
            0 <= i < sources.len() && (#[trigger] sources[i]).hash == e.hash {
            new_contents(existing, sources)
        } else {
            new_contents(existing, sources).push(e)
        },
{
    let t = sources.push(e);
    assert(t.drop_last() =~= sources);
    assert(digests(sources).contains(e.hash) <==> exists|i: int|
        0 <= i < sources.len() && (#[trigger] sources[i]).hash == e.hash) by {
        if digests(sources).contains(e.hash) {
            let i = choose|i: int| 0 <= i < digests(sources).len() && digests(sources)[i] == e.hash;
            assert(sources[i].hash == e.hash);
        }
        if exists|i: int| 0 <= i < sources.len() && (#[trigger] sources[i]).hash == e.hash {
            let i = choose|i: int| 0 <= i < sources.len() && (#[trigger] sources[i]).hash == e.hash;
            assert(digests(sources)[i] == e.hash);
        }
    }
}

/// Each planned copy is the first source entry with its content: no earlier
/// source entry has that digest.
pub proof fn lemma_copies_are_first(existing: Seq<ContentHash>, sources: Seq<HashedView>)
    ensures
        forall|k: int|
            0 <= k < new_contents(existing, sources).len() ==> exists|i: int|
                0 <= i < sources.len() && sources[i] == #[trigger] new_contents(existing, sources)[k]
                    && forall|j: int| 0 <= j < i ==> (#[trigger] sources[j]).hash != sources[i].hash,
    decreases sources.len(),
{
    if sources.len() > 0 {
        let earlier = sources.drop_last();
        let last = sources.last();
        let prev = new_contents(existing, earlier);
        let fresh = new_contents(existing, sources);
        lemma_copies_are_first(existing, earlier);
        assert forall|k: int| 0 <= k < fresh.len() implies exists|i: int|
            0 <= i < sources.len() && sources[i] == #[trigger] fresh[k] && forall|j: int|
                0 <= j < i ==> (#[trigger] sources[j]).hash != sources[i].hash by {
            if k < prev.len() {
                assert(fresh[k] == prev[k]);
                let i = choose|i: int|
                    0 <= i < earlier.len() && earlier[i] == prev[k] && forall|j: int|
                        0 <= j < i ==> (#[trigger] earlier[j]).hash != earlier[i].hash;
                assert(sources[i] == earlier[i]);
                assert forall|j: int| 0 <= j < i implies (#[trigger] sources[j]).hash
                    != sources[i].hash by {
                    assert(sources[j] == earlier[j]);
                }
            } else {
                let i = sources.len() - 1;
                assert(fresh == prev.push(last));
                assert(!digests(earlier).contains(last.hash));
                assert forall|j: int| 0 <= j < i implies (#[trigger] sources[j]).hash
                    != sources[i].hash by {
                    assert(sources[j] == earlier[j]);
                    assert(digests(earlier)[j] == earlier[j].hash);
                }
            }
        }
    }
}

/// A copy is ready exactly when it has a target and nothing is there yet.
pub proof fn lemma_copy_ready_exact(plan: &CopyPlan, target_exists: Seq<bool>, k: int)
    ensures
        copy_ready(plan, target_exists, k) <==> plan.copies@[k].target is Some
            && !target_exists[k],
{
}

/// The bytes of a copy are the plain sum of what each file wrote: one more
/// file adds exactly its bytes, and the bytes of two runs add up.
pub proof fn lemma_total_bytes_adds(s: Seq<u64>, t: Seq<u64>, w: u64)
    ensures
        total_bytes(s.push(w)) == total_bytes(s) + w,
        total_bytes(s + t) == total_bytes(s) + total_bytes(t),
        total_bytes(Seq::<u64>::empty()) == 0,
    decreases t.len(),
{
    assert(s.push(w).drop_last() =~= s);
    if t.len() > 0 {
        lemma_total_bytes_adds(s, t.drop_last(), w);
        assert((s + t).drop_last() =~= s + t.drop_last());
    } else {
        assert(s + t =~= s);
    }
}

/// Whether two trees overlap does not depend on which is the source.
pub proof fn lemma_overlap_symmetric(a: Seq<u8>, b: Seq<u8>)
    ensures
        overlapping(a, b) == overlapping(b, a),
{
}

/// A path joined to a base lies in the base's tree and keeps its place
/// there: taken relative to the base again, it is the path it was.
pub proof fn lemma_joined_relative(base: Seq<u8>, rel: Seq<u8>)
    requires
        base.len() > 0,
        rel.len() == 0 || rel[0] != SEPARATOR,
    ensures
        within(base, joined(base, rel)),
        relative_to(base, joined(base, rel)) == rel,
{
    let j = joined(base, rel);
    assert(j.subrange(0, base.len() as int) =~= base);
    let rest = j.subrange(base.len() as int, j.len() as int);
    if base.last() == SEPARATOR {
        assert(rest =~= rel);
    } else {
        assert(rest =~= seq![SEPARATOR] + rel);
        assert(rest.drop_first() =~= rel);
    }
}

/// Why a planned copy cannot be carried out.
#[derive(Debug, PartialEq, Eq, Structural, Clone, Copy)]
pub enum CopyConflict {
    /// The planned copy at this index lies outside the source tree.
    OutsideSource(usize),
    /// The target of the planned copy at this index already exists.
    TargetExists(usize),
}

/// The planned copy at `k` can be carried out: it has a target, and nothing
/// is there yet.
pub open spec fn copy_ready(plan: &CopyPlan, target_exists: Seq<bool>, k: int) -> bool {
    plan.copies@[k].target is Some && !target_exists[k]
}

/// Checks a plan before anything is written: the first planned copy, in
/// order, that lies outside the source tree or whose target already exists
/// stops the copy. `target_exists[k]` tells whether the target of the
/// planned copy at `k` exists (and is `false` where there is no target).
pub fn first_conflict(plan: &CopyPlan, target_exists: &Vec<bool>) -> (r: Option<CopyConflict>)
    requires
        target_exists.len() == plan.copies.len(),
    ensures
        r is None <==> forall|k: int|
            0 <= k < plan.copies.len() ==> #[trigger] copy_ready(plan, target_exists@, k),
        r is None <==> forall|k: int|
            0 <= k < plan.copies.len() ==> (#[trigger] plan.copies@[k]).target is Some
                && !target_exists@[k],
        r matches Some(CopyConflict::OutsideSource(k)) ==> {
            &&& k < plan.copies.len()
            &&& plan.copies@[k as int].target is None
            &&& forall|j: int| 0 <= j < k ==> #[trigger] copy_ready(plan, target_exists@, j)
        },
        r matches Some(CopyConflict::TargetExists(k)) ==> {
            &&& k < plan.copies.len()
            &&& plan.copies@[k as int].target is Some
            &&& target_exists@[k as int]
            &&& forall|j: int| 0 <= j < k ==> #[trigger] copy_ready(plan, target_exists@, j)
        },
{
    let mut k: usize = 0;
    while k < plan.copies.len()
        invariant
            target_exists.len() == plan.copies.len(),
            k <= plan.copies.len(),
            forall|j: int| 0 <= j < k ==> #[trigger] copy_ready(plan, target_exists@, j),
        decreases plan.copies.len() - k,
    {
        if plan.copies[k].target.is_none() {
            assert(!copy_ready(plan, target_exists@, k as int));
            assert(plan.copies@[k as int].target is None);
            return Some(CopyConflict::OutsideSource(k));
        }
        if target_exists[k] {
            assert(!copy_ready(plan, target_exists@, k as int));
            assert(target_exists@[k as int] && plan.copies@[k as int].target is Some);
            return Some(CopyConflict::TargetExists(k));
        }
        k = k + 1;
    }
    assert forall|j: int| 0 <= j < plan.copies.len() implies (#[trigger] plan.copies@[j]).target is Some
        && !target_exists@[j] by {
        assert(copy_ready(plan, target_exists@, j));
    }
    None
}

/// The sum of a sequence of byte counts.
pub open spec fn total_bytes(s: Seq<u64>) -> int
    decreases s.len(),
{
    if s.len() == 0 {
        0
    } else {
        total_bytes(s.drop_last()) + s.last()
    }
}

/// The summary of a copy of `source_count` source files in which the planned
/// copies wrote `written` bytes each; `None` when the bytes written do not
/// fit in a `u64`.
pub fn copy_stats(source_count: usize, written: &Vec<u64>) -> (r: Option<CopyStats>)
    requires
        written.len() <= source_count,
    ensures
        r is Some <==> total_bytes(written@) <= u64::MAX,
        r matches Some(stats) ==> {
            &&& stats.copied_files == written.len()
            &&& stats.skipped_files == source_count - written.len()
            &&& stats.copied_bytes == total_bytes(written@)
        },
{
    let mut sum: u64 = 0;
    let mut i: usize = 0;
    while i < written.len()
        invariant
            i <= written.len(),
            sum == total_bytes(written@.take(i as int)),
        decreases written.len() - i,
    {
        assert(written@.take(i + 1).drop_last() =~= written@.take(i as int));
        match sum.checked_add(written[i]) {
            Some(s) => sum = s,
            None => {
                proof {
                    lemma_total_bytes_prefix(written@, i + 1);
                }
                return None;
            },
        }
        i = i + 1;
    }
    assert(written@.take(written.len() as int) =~= written@);
    Some(
        CopyStats {
            copied_files: written.len(),
            skipped_files: source_count - written.len(),
            copied_bytes: sum,
        },
    )
}

/// A prefix never sums to more than the whole.
proof fn lemma_total_bytes_prefix(s: Seq<u64>, k: int)
    requires
        0 <= k <= s.len(),
    ensures
        total_bytes(s.take(k)) <= total_bytes(s),
    decreases s.len() - k,
{
    if k < s.len() {
        lemma_total_bytes_prefix(s, k + 1);
        assert(s.take(k + 1).drop_last() =~= s.take(k));
    } else {
        assert(s.take(k) =~= s);
    }
}

} // verus!
