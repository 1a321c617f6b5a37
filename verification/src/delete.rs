//! Decides which copy of each duplicate group is kept and what deleting the
//! others frees.
use vstd::prelude::*;

use crate::model::{DuplicateGroup, FileInfo, FileView, GroupView, HashedView};
use crate::order::{lemma_path_le_total, path_le, path_le_exec, views};

verus! {

broadcast use {vstd::seq_lib::group_to_multiset_ensures, vstd::multiset::group_multiset_axioms};

/// Which copy of a group is kept.
#[derive(Clone, Copy, Debug, PartialEq, Eq, Structural)]
pub enum KeepPolicy {
    /// Keep the most recently modified copy.
    Newest,
    /// Keep the least recently modified copy.
    Oldest,
}

/// `a` is at least as good a keeper as `b`: it wins on `policy`'s
/// modification time, and a tie goes to the smaller path.
pub open spec fn keeps_over(policy: KeepPolicy, a: FileView, b: FileView) -> bool {
    match policy {
        KeepPolicy::Newest => a.modified > b.modified || (a.modified == b.modified && path_le(
            a.path,
            b.path,
        )),
        KeepPolicy::Oldest => a.modified < b.modified || (a.modified == b.modified && path_le(
            a.path,
            b.path,
        )),
    }
}

/// `k` is the keeper of `files`: no file beats it, and among files that tie
/// with it, the last one for `Newest` and the first one for `Oldest`.
pub open spec fn is_keeper(policy: KeepPolicy, files: Seq<FileView>, k: int) -> bool {
    &&& 0 <= k < files.len()
    &&& forall|j: int| 0 <= j < files.len() ==> keeps_over(policy, files[k], #[trigger] files[j])
    &&& match policy {
        KeepPolicy::Newest => forall|j: int|
            k < j < files.len() ==> !keeps_over(policy, #[trigger] files[j], files[k]),
        KeepPolicy::Oldest => forall|j: int|
            0 <= j < k ==> !keeps_over(policy, #[trigger] files[j], files[k]),
    }
}

proof fn lemma_keeps_over_total(policy: KeepPolicy, a: FileView, b: FileView)
    ensures
        keeps_over(policy, a, b) || keeps_over(policy, b, a),
{
    lemma_path_le_total(a.path, b.path);
}

proof fn lemma_keeps_over_transitive(policy: KeepPolicy, a: FileView, b: FileView, c: FileView)
    requires
        keeps_over(policy, a, b),
        keeps_over(policy, b, c),
    ensures
        keeps_over(policy, a, c),
{
    if a.modified == b.modified && b.modified == c.modified {
        crate::order::lemma_path_le_transitive(a.path, b.path, c.path);
    }
}

fn keeps_over_exec(policy: KeepPolicy, a: &FileInfo, b: &FileInfo) -> (r: bool)
    ensures
        r == keeps_over(policy, a@, b@),
{
    if a.modified != b.modified {
        match policy {
            KeepPolicy::Newest => a.modified > b.modified,
            KeepPolicy::Oldest => a.modified < b.modified,
        }
    } else {
        path_le_exec(&a.path, &b.path)
    }
}

/// The kept copy has the latest modification time of its group under
/// `Newest` and the earliest under `Oldest`; among copies with that time it
/// has the least path.
pub proof fn lemma_keeper_has_extreme_time(policy: KeepPolicy, files: Seq<FileView>, k: int)
    requires
        is_keeper(policy, files, k),
    ensures
        forall|j: int|
            0 <= j < files.len() ==> match policy {
                KeepPolicy::Newest => (#[trigger] files[j]).modified <= files[k].modified,
                KeepPolicy::Oldest => (#[trigger] files[j]).modified >= files[k].modified,
            },
        forall|j: int|
            0 <= j < files.len() && (#[trigger] files[j]).modified == files[k].modified ==> path_le(
                files[k].path,
                files[j].path,
            ),
{
    assert forall|j: int| 0 <= j < files.len() implies match policy {
        KeepPolicy::Newest => (#[trigger] files[j]).modified <= files[k].modified,
        KeepPolicy::Oldest => (#[trigger] files[j]).modified >= files[k].modified,
    } by {
        assert(keeps_over(policy, files[k], files[j]));
    }
    assert forall|j: int|
        0 <= j < files.len() && (#[trigger] files[j]).modified == files[k].modified implies path_le(
        files[k].path,
        files[j].path,
    ) by {
        assert(keeps_over(policy, files[k], files[j]));
    }
}

/// The index of the copy to keep; `None` for no files.
pub fn select_keeper(files: &[FileInfo], policy: KeepPolicy) -> (r: Option<usize>)
    ensures
        r is None <==> files.len() == 0,
        r matches Some(k) ==> is_keeper(policy, views(files@), k as int),
        r matches Some(k) ==> forall|j: int|
            0 <= j < files.len() ==> match policy {
                KeepPolicy::Newest => (#[trigger] files@[j]).modified <= files@[k as int].modified,
                KeepPolicy::Oldest => (#[trigger] files@[j]).modified >= files@[k as int].modified,
            },
{
    let ghost fs = views(files@);
    if files.len() == 0 {
        return None;
    }
    let mut best: usize = 0;
    let mut i: usize = 1;
    proof {
        crate::order::lemma_path_le_reflexive(fs[0].path);
    }
    while i < files.len()
        invariant
            fs == views(files@),
            0 <= best < i <= files.len(),
            forall|j: int| 0 <= j < i ==> keeps_over(policy, fs[best as int], #[trigger] fs[j]),
            policy == KeepPolicy::Newest ==> forall|j: int|
                best < j < i ==> !keeps_over(policy, #[trigger] fs[j], fs[best as int]),
            policy == KeepPolicy::Oldest ==> forall|j: int|
                0 <= j < best ==> !keeps_over(policy, #[trigger] fs[j], fs[best as int]),
        decreases files.len() - i,
    {
        let replace = match policy {
            KeepPolicy::Newest => keeps_over_exec(policy, &files[i], &files[best]),
            KeepPolicy::Oldest => !keeps_over_exec(policy, &files[best], &files[i]),
        };
        proof {
            let b = fs[best as int];
            let c = fs[i as int];
            if replace {
                lemma_keeps_over_total(policy, b, c);
                assert forall|j: int| 0 <= j <= i implies keeps_over(policy, c, #[trigger] fs[j]) by {
                    if j < i {
                        lemma_keeps_over_transitive(policy, c, b, fs[j]);
                    } else {
                        lemma_keeps_over_total(policy, c, c);
                    }
                }
                if policy == KeepPolicy::Oldest {
                    assert forall|j: int| 0 <= j < i implies !keeps_over(
                        policy,
                        #[trigger] fs[j],
                        c,
                    ) by {
                        if keeps_over(policy, fs[j], c) {
                            lemma_keeps_over_transitive(policy, b, fs[j], c);
                        }
                    }
                }
            } else {
                lemma_keeps_over_total(policy, b, c);
                if policy == KeepPolicy::Newest {
                    assert(!keeps_over(policy, c, b));
                }
            }
        }
        if replace {
            best = i;
        }
        i = i + 1;
    }
    proof {
        lemma_keeper_has_extreme_time(policy, fs, best as int);
        assert forall|j: int| 0 <= j < files.len() implies match policy {
            KeepPolicy::Newest => (#[trigger] files@[j]).modified <= files@[best as int].modified,
            KeepPolicy::Oldest => (#[trigger] files@[j]).modified >= files@[best as int].modified,
        } by {
            assert(fs[j].modified == files@[j].modified);
            assert(fs[best as int].modified == files@[best as int].modified);
        }
    }
    Some(best)
}

/// The index of the newest copy, ties going to the smaller path; `None` for
/// no files.
pub fn keeper_index(files: &[FileInfo]) -> (r: Option<usize>)
    ensures
        r is None <==> files.len() == 0,
        r matches Some(k) ==> is_keeper(KeepPolicy::Newest, views(files@), k as int),
        r matches Some(k) ==> forall|j: int|
            0 <= j < files.len() ==> (#[trigger] files@[j]).modified <= files@[k as int].modified,
{
    select_keeper(files, KeepPolicy::Newest)
}

/// The files that deleting duplicates removes: every file of every group but
/// its keeper.
pub open spec fn extra_copies(groups: Seq<GroupView>) -> int
    decreases groups.len(),
{
    if groups.len() == 0 {
        0
    } else {
        extra_copies(groups.drop_last()) + groups.last().files.len() - 1
    }
}

/// No group is empty.
pub open spec fn groups_nonempty(groups: Seq<GroupView>) -> bool {
    forall|k: int| 0 <= k < groups.len() ==> (#[trigger] groups[k]).files.len() > 0
}

proof fn lemma_extra_copies_prefix(groups: Seq<GroupView>, k: int)
    requires
        0 <= k <= groups.len(),
        groups_nonempty(groups),
    ensures
        extra_copies(groups.take(k)) <= extra_copies(groups),
        extra_copies(groups.take(k)) >= 0,
    decreases groups.len() - k,
{
    lemma_extra_copies_nonneg(groups.take(k));
    if k < groups.len() {
        lemma_extra_copies_prefix(groups, k + 1);
        assert(groups.take(k + 1).drop_last() =~= groups.take(k));
        assert(groups.take(k + 1).last() == groups[k]);
    } else {
        assert(groups.take(k) =~= groups);
    }
}

proof fn lemma_extra_copies_nonneg(groups: Seq<GroupView>)
    requires
        groups_nonempty(groups),
    ensures
        extra_copies(groups) >= 0,
    decreases groups.len(),
{
    if groups.len() > 0 {
        assert(groups_nonempty(groups.drop_last())) by {
            assert forall|k: int| 0 <= k < groups.drop_last().len() implies (
            #[trigger] groups.drop_last()[k]).files.len() > 0 by {
                assert(groups.drop_last()[k] == groups[k]);
            }
        }
        lemma_extra_copies_nonneg(groups.drop_last());
        assert(groups.last() == groups[groups.len() - 1]);
    }
}

/// How many files deleting duplicates removes; `None` when a group is empty
/// or the count does not fit in a `usize`.
pub fn deletion_count(groups: &Vec<DuplicateGroup>) -> (r: Option<usize>)
    ensures
        r is Some <==> groups_nonempty(views(groups@)) && extra_copies(views(groups@))
            <= usize::MAX,
        r matches Some(n) ==> n == extra_copies(views(groups@)),
{
    let ghost gs = views(groups@);
    let mut total: usize = 0;
    let mut i: usize = 0;
    while i < groups.len()
        invariant
            gs == views(groups@),
            i <= groups.len(),
            groups_nonempty(gs.take(i as int)),
            total == extra_copies(gs.take(i as int)),
        decreases groups.len() - i,
    {
        proof {
            assert(gs.take(i + 1).drop_last() =~= gs.take(i as int));
            assert(gs.take(i + 1).last() == gs[i as int]);
            assert(gs[i as int].files.len() == groups@[i as int].files@.len());
        }
        let n = groups[i].files.len();
        if n == 0 {
            assert(!groups_nonempty(gs));
            return None;
        }
        match total.checked_add(n - 1) {
            Some(t) => total = t,
            None => {
                proof {
                    if groups_nonempty(gs) {
                        lemma_extra_copies_prefix(gs, i + 1);
                    }
                }
                return None;
            },
        }
        proof {
            assert forall|k: int| 0 <= k < i + 1 implies (#[trigger] gs.take(i + 1)[k]).files.len()
                > 0 by {
                if k < i {
                    assert(gs.take(i + 1)[k] == gs.take(i as int)[k]);
                }
            }
        }
        i = i + 1;
    }
    assert(gs.take(groups.len() as int) =~= gs);
    Some(total)
}

/// The keeper of each group; `None` when a group is empty.
pub fn plan_deletions(groups: &Vec<DuplicateGroup>, policy: KeepPolicy) -> (r: Option<Vec<usize>>)
    ensures
        r is Some <==> groups_nonempty(views(groups@)),
        r matches Some(keepers) ==> keepers.len() == groups.len() && forall|k: int|
            0 <= k < groups.len() ==> is_keeper(
                policy,
                #[trigger] views(groups@)[k].files,
                keepers@[k] as int,
            ),
{
    let ghost gs = views(groups@);
    let mut keepers: Vec<usize> = Vec::new();
    let mut i: usize = 0;
    while i < groups.len()
        invariant
            gs == views(groups@),
            i <= groups.len(),
            keepers.len() == i,
            forall|k: int| 0 <= k < i ==> (#[trigger] gs[k]).files.len() > 0,
            forall|k: int| 0 <= k < i ==> is_keeper(policy, #[trigger] gs[k].files, keepers@[k] as int),
        decreases groups.len() - i,
    {
        assert(gs[i as int].files == views(groups@[i as int].files@));
        match select_keeper(groups[i].files.as_slice(), policy) {
            Some(k) => keepers.push(k),
            None => {
                assert(gs[i as int].files.len() == 0);
                return None;
            },
        }
        i = i + 1;
    }
    Some(keepers)
}

/// The bytes of all files but the one at `keep`.
pub open spec fn bytes_except(files: Seq<FileView>, keep: int) -> int
    decreases files.len(),
{
    if files.len() == 0 {
        0
    } else {
        bytes_except(files.drop_last(), keep) + if files.len() - 1 == keep {
            0int
        } else {
            files.last().size as int
        }
    }
}

/// The bytes that deleting every file but the keepers frees.
pub open spec fn deleted_bytes(groups: Seq<GroupView>, keepers: Seq<usize>) -> int
    decreases groups.len(),
{
    if groups.len() == 0 {
        0
    } else {
        deleted_bytes(groups.drop_last(), keepers) + bytes_except(
            groups.last().files,
            keepers[groups.len() - 1] as int,
        )
    }
}

proof fn lemma_bytes_except_nonneg(files: Seq<FileView>, keep: int)
    ensures
        bytes_except(files, keep) >= 0,
    decreases files.len(),
{
    if files.len() > 0 {
        lemma_bytes_except_nonneg(files.drop_last(), keep);
    }
}

proof fn lemma_deleted_bytes_prefix(groups: Seq<GroupView>, keepers: Seq<usize>, k: int)
    requires
        0 <= k <= groups.len(),
    ensures
        0 <= deleted_bytes(groups.take(k), keepers) <= deleted_bytes(groups, keepers),
    decreases groups.len() - k,
{
    lemma_deleted_bytes_nonneg(groups.take(k), keepers);
    if k < groups.len() {
        lemma_deleted_bytes_prefix(groups, keepers, k + 1);
        assert(groups.take(k + 1).drop_last() =~= groups.take(k));
        assert(groups.take(k + 1).last() == groups[k]);
        lemma_bytes_except_nonneg(groups[k].files, keepers[k] as int);
    } else {
        assert(groups.take(k) =~= groups);
        lemma_deleted_bytes_nonneg(groups, keepers);
    }
}

proof fn lemma_deleted_bytes_nonneg(groups: Seq<GroupView>, keepers: Seq<usize>)
    ensures
        deleted_bytes(groups, keepers) >= 0,
    decreases groups.len(),
{
    if groups.len() > 0 {
        lemma_deleted_bytes_nonneg(groups.drop_last(), keepers);
        lemma_bytes_except_nonneg(groups.last().files, keepers[groups.len() - 1] as int);
    }
}

proof fn lemma_bytes_except_prefix(files: Seq<FileView>, keep: int, k: int)
    requires
        0 <= k <= files.len(),
    ensures
        0 <= bytes_except(files.take(k), keep) <= bytes_except(files, keep),
    decreases files.len() - k,
{
    lemma_bytes_except_nonneg(files.take(k), keep);
    if k < files.len() {
        lemma_bytes_except_prefix(files, keep, k + 1);
        assert(files.take(k + 1).drop_last() =~= files.take(k));
    } else {
        assert(files.take(k) =~= files);
    }
}

/// The bytes of one group's files but its keeper; `None` when they do not fit
/// in a `u64`.
fn group_deleted_bytes(files: &Vec<FileInfo>, keep: usize) -> (r: Option<u64>)
    ensures
        r is Some <==> bytes_except(views(files@), keep as int) <= u64::MAX,
        r matches Some(b) ==> b == bytes_except(views(files@), keep as int),
{
    let ghost fs = views(files@);
    let mut sum: u64 = 0;
    let mut i: usize = 0;
    while i < files.len()
        invariant
            fs == views(files@),
            i <= files.len(),
            sum == bytes_except(fs.take(i as int), keep as int),
        decreases files.len() - i,
    {
        assert(fs.take(i + 1).drop_last() =~= fs.take(i as int));
        if i != keep {
            match sum.checked_add(files[i].size) {
                Some(s) => sum = s,
                None => {
                    proof {
                        lemma_bytes_except_prefix(fs, keep as int, i + 1);
                    }
                    return None;
                },
            }
        }
        i = i + 1;
    }
    assert(fs.take(files.len() as int) =~= fs);
    Some(sum)
}

/// The bytes that deleting every file but the keepers frees; `None` when
/// they do not fit in a `u64`.
pub fn reclaimed_bytes(groups: &Vec<DuplicateGroup>, keepers: &Vec<usize>) -> (r: Option<u64>)
    requires
        keepers.len() == groups.len(),
    ensures
        r is Some <==> deleted_bytes(views(groups@), keepers@) <= u64::MAX,
        r matches Some(b) ==> b == deleted_bytes(views(groups@), keepers@),
{
    let ghost gs = views(groups@);
    let mut sum: u64 = 0;
    let mut i: usize = 0;
    while i < groups.len()
        invariant
            gs == views(groups@),
            keepers.len() == groups.len(),
            i <= groups.len(),
            sum == deleted_bytes(gs.take(i as int), keepers@),
        decreases groups.len() - i,
    {
        proof {
            assert(gs.take(i + 1).drop_last() =~= gs.take(i as int));
            assert(gs.take(i + 1).last() == gs[i as int]);
            assert(gs[i as int].files == views(groups@[i as int].files@));
        }
        let part = group_deleted_bytes(&groups[i].files, keepers[i]);
        let next = match part {
            Some(p) => sum.checked_add(p),
            None => None,
        };
        match next {
            Some(s) => sum = s,
            None => {
                proof {
                    lemma_deleted_bytes_prefix(gs, keepers@, i + 1);
                    lemma_deleted_bytes_nonneg(gs.take(i as int), keepers@);
                }
                return None;
            },
        }
        i = i + 1;
    }
    assert(gs.take(groups.len() as int) =~= gs);
    Some(sum)
}

/// The keeper is determined: a group has only one.
pub proof fn lemma_keeper_unique(policy: KeepPolicy, files: Seq<FileView>, k1: int, k2: int)
    requires
        is_keeper(policy, files, k1),
        is_keeper(policy, files, k2),
    ensures
        k1 == k2,
{
    assert(keeps_over(policy, files[k1], files[k2]));
    assert(keeps_over(policy, files[k2], files[k1]));
    if k1 < k2 {
        match policy {
            KeepPolicy::Newest => assert(!keeps_over(policy, files[k2], files[k1])),
            KeepPolicy::Oldest => assert(!keeps_over(policy, files[k1], files[k2])),
        }
    } else if k2 < k1 {
        match policy {
            KeepPolicy::Newest => assert(!keeps_over(policy, files[k1], files[k2])),
            KeepPolicy::Oldest => assert(!keeps_over(policy, files[k2], files[k1])),
        }
    }
}

/// Every file has the size of the first.
pub open spec fn uniform_size(files: Seq<FileView>) -> bool {
    forall|j: int| 0 <= j < files.len() ==> (#[trigger] files[j]).size == files[0].size
}

proof fn lemma_bytes_except_uniform(files: Seq<FileView>, size: u64, keep: int)
    requires
        forall|j: int| 0 <= j < files.len() ==> (#[trigger] files[j]).size == size,
    ensures
        bytes_except(files, keep) == size * (files.len() - if 0 <= keep < files.len() {
            1int
        } else {
            0int
        }),
    decreases files.len(),
{
    if files.len() > 0 {
        let t = files.drop_last();
        assert forall|j: int| 0 <= j < t.len() implies (#[trigger] t[j]).size == size by {
            assert(t[j] == files[j]);
        }
        lemma_bytes_except_uniform(t, size, keep);
        assert(files.last().size == size);
        let n = files.len() as int;
        assert(bytes_except(files, keep) == bytes_except(t, keep) + if n - 1 == keep {
            0int
        } else {
            size as int
        });
        if keep == n - 1 {
            assert(bytes_except(files, keep) == size * (n - 1));
        } else if 0 <= keep < n - 1 {
            assert(size * (n - 2) + size == size * (n - 1)) by (nonlinear_arith);
        } else {
            assert(size * (n - 1) + size == size * n) by (nonlinear_arith);
        }
    } else {
        assert(size * 0 == 0);
    }
}

/// When a group's files share one size, deleting all but any one of them
/// frees exactly the group's reclaimable bytes.
pub proof fn lemma_deleting_frees_reclaimable(g: GroupView, keep: int)
    requires
        g.files.len() > 0,
        0 <= keep < g.files.len(),
        uniform_size(g.files),
        g.reclaimable_bytes == g.files[0].size * (g.files.len() - 1),
    ensures
        bytes_except(g.files, keep) == g.reclaimable_bytes,
{
    lemma_bytes_except_uniform(g.files, g.files[0].size, keep);
}

/// When every group's files share one size, deleting all but the keepers
/// frees the total reclaimable bytes of the report.
pub proof fn lemma_deletion_frees_report_total(groups: Seq<GroupView>, keepers: Seq<usize>)
    requires
        keepers.len() == groups.len(),
        forall|k: int|
            0 <= k < groups.len() ==> {
                &&& (#[trigger] groups[k]).files.len() > 0
                &&& keepers[k] < groups[k].files.len()
                &&& uniform_size(groups[k].files)
                &&& groups[k].reclaimable_bytes == groups[k].files[0].size * (
                groups[k].files.len() - 1)
            },
    ensures
        deleted_bytes(groups, keepers) == crate::duplicate::total_reclaimable_spec(groups),
    decreases groups.len(),
{
    if groups.len() > 0 {
        let t = groups.drop_last();
        assert forall|k: int| 0 <= k < t.len() implies {
            &&& (#[trigger] t[k]).files.len() > 0
            &&& keepers.drop_last()[k] < t[k].files.len()
            &&& uniform_size(t[k].files)
            &&& t[k].reclaimable_bytes == t[k].files[0].size * (t[k].files.len() - 1)
        } by {
            assert(t[k] == groups[k]);
        }
        let kt = keepers.drop_last();
        lemma_deletion_frees_report_total(t, kt);
        lemma_deleted_bytes_keepers_prefix(t, keepers, kt);
        let last = groups.len() - 1;
        assert(groups[last] == groups.last());
        lemma_deleting_frees_reclaimable(groups.last(), keepers[last] as int);
    }
}

/// `e` survives deleting every file but the keepers: no group of its digest
/// exists, or `e` is that group's kept file.
pub open spec fn survives(groups: Seq<GroupView>, keepers: Seq<usize>, e: HashedView) -> bool {
    forall|k: int|
        0 <= k < groups.len() && (#[trigger] groups[k]).hash == e.hash ==> e.file
            == groups[k].files[keepers[k] as int]
}

/// The entries left after deleting every file but the keepers.
pub open spec fn survivors(
    entries: Seq<HashedView>,
    groups: Seq<GroupView>,
    keepers: Seq<usize>,
) -> Seq<HashedView> {
    entries.filter(|e: HashedView| survives(groups, keepers, e))
}

/// Deleting duplicates leaves no duplicates: of the files left after
/// deleting every file but the keepers of a report, no two share a digest,
/// so a report of them has no group.
pub proof fn lemma_rescan_after_deletion_is_empty(
    entries: Seq<HashedView>,
    groups: Seq<GroupView>,
    keepers: Seq<usize>,
    rescan: Seq<GroupView>,
)
    requires
        crate::duplicate::unique_paths(entries),
        crate::duplicate::is_duplicate_report(entries, groups),
        keepers.len() == groups.len(),
        crate::duplicate::is_duplicate_report(survivors(entries, groups, keepers), rescan),
    ensures
        forall|a: int, b: int|
            0 <= a < survivors(entries, groups, keepers).len() && 0 <= b < survivors(
                entries,
                groups,
                keepers,
            ).len() && a != b ==> (#[trigger] survivors(entries, groups, keepers)[a]).hash
                != (#[trigger] survivors(entries, groups, keepers)[b]).hash,
        rescan.len() == 0,
{
    let r = survivors(entries, groups, keepers);
    assert forall|a: int, b: int| 0 <= a < r.len() && 0 <= b < r.len() && a != b implies (
    #[trigger] r[a]).hash != (#[trigger] r[b]).hash by {
        lemma_survivors_distinct(entries, groups, keepers, a, b);
    }
    if rescan.len() > 0 {
        let g = rescan[0];
        assert(crate::duplicate::is_duplicate_group(r, g));
        let ge = crate::duplicate::group_entries(g);
        let wh = crate::duplicate::with_hash(r, g.hash);
        assert(ge.len() >= 2);
        assert(ge.to_multiset().count(ge[0]) > 0) by {
            assert(ge.contains(ge[0]));
        }
        assert(ge.to_multiset().count(ge[1]) > 0) by {
            assert(ge.contains(ge[1]));
        }
        assert(wh.contains(ge[0]) && wh.contains(ge[1]));
        r.lemma_filter_contains_rev(|e: HashedView| e.hash == g.hash, ge[0]);
        r.lemma_filter_contains_rev(|e: HashedView| e.hash == g.hash, ge[1]);
        if ge[0] == ge[1] {
            crate::seqs::lemma_two_positions_count(ge, 0, 1);
            crate::seqs::lemma_filter_count(r, |e: HashedView| e.hash == g.hash, ge[0]);
            let (a, b) = crate::seqs::lemma_count_two_positions(r, ge[0]);
            assert(r[a].hash == r[b].hash);
        } else {
            let a = choose|a: int| 0 <= a < r.len() && r[a] == ge[0];
            let b = choose|b: int| 0 <= b < r.len() && r[b] == ge[1];
            assert(r[a].hash == r[b].hash);
        }
    }
}

proof fn lemma_survivors_distinct(
    entries: Seq<HashedView>,
    groups: Seq<GroupView>,
    keepers: Seq<usize>,
    a: int,
    b: int,
)
    requires
        crate::duplicate::unique_paths(entries),
        crate::duplicate::is_duplicate_report(entries, groups),
        keepers.len() == groups.len(),
        0 <= a < survivors(entries, groups, keepers).len(),
        0 <= b < survivors(entries, groups, keepers).len(),
        a != b,
    ensures
        survivors(entries, groups, keepers)[a].hash != survivors(entries, groups, keepers)[b].hash,
{
    let p = |e: HashedView| survives(groups, keepers, e);
    let r = survivors(entries, groups, keepers);
    let x = r[a];
    let y = r[b];
    let h = x.hash;
    if x.hash != y.hash {
        return;
    }
    assert(r.contains(x) && r.contains(y));
    entries.lemma_filter_contains_rev(p, x);
    entries.lemma_filter_contains_rev(p, y);
    if x == y {
        crate::seqs::lemma_two_positions_count(r, a, b);
        crate::seqs::lemma_filter_count(entries, p, x);
        let (i, j) = crate::seqs::lemma_count_two_positions(entries, x);
        assert(entries[i].file.path == entries[j].file.path);
    } else {
        let i = choose|i: int| 0 <= i < entries.len() && entries[i] == x;
        let j = choose|j: int| 0 <= j < entries.len() && entries[j] == y;
        crate::seqs::lemma_filter_two(entries, |e: HashedView| e.hash == h, i, j);
        assert(crate::duplicate::with_hash(entries, h).len() >= 2);
        let k = choose|k: int| 0 <= k < groups.len() && (#[trigger] groups[k]).hash == x.hash;
        r.lemma_filter_pred(p, a);
        r.lemma_filter_pred(p, b);
        assert(survives(groups, keepers, x));
        assert(survives(groups, keepers, y));
        assert(x.file == groups[k].files[keepers[k] as int]);
        assert(y.file == groups[k].files[keepers[k] as int]);
        assert(x == y);
    }
}

/// Each group adds its files but one to the deletion count, and the bytes
/// of its files but the keeper to the freed bytes; a file adds its size to
/// the bytes of a group unless it is the keeper.
pub proof fn lemma_deletion_sums_add(
    groups: Seq<GroupView>,
    g: GroupView,
    keepers: Seq<usize>,
    files: Seq<FileView>,
    f: FileView,
    keep: int,
)
    requires
        keepers.len() == groups.len() + 1,
    ensures
        extra_copies(groups.push(g)) == extra_copies(groups) + g.files.len() - 1,
        deleted_bytes(groups.push(g), keepers) == deleted_bytes(groups, keepers) + bytes_except(
            g.files,
            keepers[groups.len() as int] as int,
        ),
        bytes_except(files.push(f), keep) == bytes_except(files, keep) + if keep == files.len() {
            0int
        } else {
            f.size as int
        },
        bytes_except(Seq::<FileView>::empty(), keep) == 0,
        extra_copies(Seq::<GroupView>::empty()) == 0,
{
    assert(groups.push(g).drop_last() =~= groups);
    assert(files.push(f).drop_last() =~= files);
}

/// Deleted bytes depend only on the keepers of the groups present.
proof fn lemma_deleted_bytes_keepers_prefix(groups: Seq<GroupView>, k1: Seq<usize>, k2: Seq<usize>)
    requires
        groups.len() <= k1.len(),
        groups.len() <= k2.len(),
        forall|k: int| 0 <= k < groups.len() ==> k1[k] == k2[k],
    ensures
        deleted_bytes(groups, k1) == deleted_bytes(groups, k2),
    decreases groups.len(),
{
    if groups.len() > 0 {
        lemma_deleted_bytes_keepers_prefix(groups.drop_last(), k1, k2);
    }
}

} // verus!

