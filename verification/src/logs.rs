use vstd::prelude::*;

use crate::tree::copy_bytes;
use crate::tree::fit_u64;
use crate::tree::removals_view;
use crate::tree::CleanPlan;
use crate::tree::Entry;
use crate::tree::Overflow;
use crate::tree::Removal;
use crate::tree::RemovalKind;

verus! {

/// Whether the bytes `s` end with the bytes `p`.
pub open spec fn ends_with_bytes(s: Seq<u8>, p: Seq<u8>) -> bool {
    p.len() <= s.len() && s.skip(s.len() - p.len()) == p
}

/// The endings that mark a rotated or compressed log file:
/// `.gz`, `.old`, `.1`, `.2` and `.3`, as ASCII bytes.
pub open spec fn rotated_endings() -> Seq<Seq<u8>> {
    seq![
        seq![46u8, 103u8, 122u8],
        seq![46u8, 111u8, 108u8, 100u8],
        seq![46u8, 49u8],
        seq![46u8, 50u8],
        seq![46u8, 51u8],
    ]
}

/// Whether a file name marks a rotated or compressed log.
pub open spec fn is_rotated_name(name: Seq<u8>) -> bool {
    exists|k: int| 0 <= k < rotated_endings().len() && ends_with_bytes(name, #[trigger] rotated_endings()[k])
}

fn has_ending(name: &Vec<u8>, ending: &[u8]) -> (b: bool)
    ensures
        b == ends_with_bytes(name@, ending@),
{
    if ending.len() > name.len() {
        return false;
    }
    let off = name.len() - ending.len();
    let mut i: usize = 0;
    while i < ending.len()
        invariant
            off + ending.len() == name.len(),
            i <= ending.len(),
            forall|k: int| 0 <= k < i ==> name@[off + k] == ending@[k],
        decreases ending.len() - i,
    {
        if name[off + i] != ending[i] {
            proof {
                assert(name@.skip(off as int)[i as int] != ending@[i as int]);
            }
            return false;
        }
        i = i + 1;
    }
    proof {
        assert(name@.skip(off as int) =~= ending@);
    }
    true
}

/// Whether a file name (its bytes) marks a rotated or compressed log, by
/// its ending.
pub fn is_rotated_log_name(name: &Vec<u8>) -> (b: bool)
    ensures
        b == is_rotated_name(name@),
{
    let gz: [u8; 3] = [46u8, 103u8, 122u8];
    let old: [u8; 4] = [46u8, 111u8, 108u8, 100u8];
    let one: [u8; 2] = [46u8, 49u8];
    let two: [u8; 2] = [46u8, 50u8];
    let three: [u8; 2] = [46u8, 51u8];
    proof {
        assert(gz@ =~= rotated_endings()[0]);
        assert(old@ =~= rotated_endings()[1]);
        assert(one@ =~= rotated_endings()[2]);
        assert(two@ =~= rotated_endings()[3]);
        assert(three@ =~= rotated_endings()[4]);
    }
    let b = has_ending(name, &gz) || has_ending(name, &old) || has_ending(name, &one)
        || has_ending(name, &two) || has_ending(name, &three);
    proof {
        if b {
            if ends_with_bytes(name@, rotated_endings()[0]) {
            } else if ends_with_bytes(name@, rotated_endings()[1]) {
            } else if ends_with_bytes(name@, rotated_endings()[2]) {
            } else if ends_with_bytes(name@, rotated_endings()[3]) {
            } else {
                assert(ends_with_bytes(name@, rotated_endings()[4]));
            }
        } else {
            assert forall|k: int| 0 <= k < rotated_endings().len() implies !ends_with_bytes(
                name@,
                #[trigger] rotated_endings()[k],
            ) by {
                if k == 0 {
                } else if k == 1 {
                } else if k == 2 {
                } else if k == 3 {
                } else {
                }
            }
        }
    }
    b
}

/// The name of an entry.
pub open spec fn entry_name(e: Entry) -> Seq<u8> {
    match e {
        Entry::File { name, .. } => name@,
        Entry::Dir { name, .. } => name@,
    }
}

/// The path of an entry.
pub open spec fn entry_path(e: Entry) -> Seq<u8> {
    match e {
        Entry::File { path, .. } => path@,
        Entry::Dir { path, .. } => path@,
    }
}

/// The metadata length of an entry itself (a directory's own length too).
pub open spec fn entry_meta(e: Entry) -> Option<u64> {
    match e {
        Entry::File { size, .. } => size,
        Entry::Dir { size, .. } => size,
    }
}

/// Bytes of the rotated logs among sibling entries: those whose name marks
/// a rotated log and whose metadata could be read, files and directories
/// alike.
pub open spec fn rotated_bytes(s: Seq<Entry>) -> nat
    decreases s.len(),
{
    if s.len() == 0 {
        0
    } else {
        rotated_bytes(s.drop_last()) + if is_rotated_name(entry_name(s.last())) {
            match entry_meta(s.last()) {
                Some(n) => n as nat,
                None => 0,
            }
        } else {
            0
        }
    }
}

/// The deletions of a log cleaning among sibling entries: every entry whose
/// name marks a rotated log is deleted as a file.
pub open spec fn rotated_removals(s: Seq<Entry>) -> Seq<(RemovalKind, Seq<u8>)>
    decreases s.len(),
{
    if s.len() == 0 {
        seq![]
    } else {
        rotated_removals(s.drop_last()) + if is_rotated_name(entry_name(s.last())) {
            seq![(RemovalKind::File, entry_path(s.last()))]
        } else {
            seq![]
        }
    }
}

/// The rotated-log bytes directly inside a log directory snapshot: nothing
/// when the path is missing or is not a directory.
pub open spec fn root_rotated_bytes(root: Option<Entry>) -> nat {
    match root {
        Some(Entry::Dir { children, .. }) => rotated_bytes(children@),
        _ => 0,
    }
}

/// The deletions of cleaning the rotated logs directly inside a log
/// directory snapshot.
pub open spec fn root_rotated_removals(root: Option<Entry>) -> Seq<(RemovalKind, Seq<u8>)> {
    match root {
        Some(Entry::Dir { children, .. }) => rotated_removals(children@),
        _ => seq![],
    }
}

proof fn lemma_rotated_prefix(s: Seq<Entry>, k: int)
    requires
        0 <= k <= s.len(),
    ensures
        rotated_bytes(s.subrange(0, k)) <= rotated_bytes(s),
        rotated_removals(s.subrange(0, k)).len() <= rotated_removals(s).len(),
    decreases s.len() - k,
{
    if k < s.len() {
        lemma_rotated_prefix(s, k + 1);
        assert(s.subrange(0, k + 1).drop_last() =~= s.subrange(0, k));
    } else {
        assert(s.subrange(0, k) =~= s);
    }
}

/// Bytes of the rotated logs directly inside a log directory, as scanning
/// adds them up; `None` when the sum overflows a `u64`.
pub fn rotated_size(root: &Option<Entry>) -> (r: Option<u64>)
    ensures
        r == fit_u64(root_rotated_bytes(*root)),
{
    match root {
        Some(Entry::Dir { children, .. }) => {
            let mut total: u64 = 0;
            let mut i: usize = 0;
            while i < children.len()
                invariant
                    i <= children.len(),
                    root_rotated_bytes(*root) == rotated_bytes(children@),
                    total == rotated_bytes(children@.subrange(0, i as int)),
                decreases children.len() - i,
            {
                proof {
                    assert(children@.subrange(0, i + 1).drop_last() =~= children@.subrange(
                        0,
                        i as int,
                    ));
                    lemma_rotated_prefix(children@, i + 1);
                    assert(children@.subrange(0, i + 1).last() == children@[i as int]);
                }
                let add: u64 = match &children[i] {
                    Entry::File { name, size, .. } | Entry::Dir { name, size, .. } => {
                        if is_rotated_log_name(name) {
                            match size {
                                Some(n) => *n,
                                None => 0,
                            }
                        } else {
                            0
                        }
                    },
                };
                match total.checked_add(add) {
                    Some(t) => total = t,
                    None => return None,
                }
                i = i + 1;
            }
            proof {
                assert(children@.subrange(0, i as int) =~= children@);
            }
            Some(total)
        },
        _ => Some(0),
    }
}

/// Plans the cleaning of the rotated logs directly inside a log directory:
/// each entry whose name marks a rotated log is deleted as a file, counted
/// as one removed file, and its metadata length (when readable) counted as
/// freed. `Err` exactly when the bytes do not fit in a `u64` or the count in
/// a `u32`.
pub fn plan_clean_rotated(root: &Option<Entry>) -> (r: Result<CleanPlan, Overflow>)
    ensures
        r is Ok <==> (root_rotated_bytes(*root) <= u64::MAX && root_rotated_removals(
            *root,
        ).len() <= u32::MAX),
        r matches Ok(plan) ==> {
            &&& plan.freed == root_rotated_bytes(*root)
            &&& plan.files == root_rotated_removals(*root).len()
            &&& removals_view(plan.removals@) == root_rotated_removals(*root)
        },
{
    let mut plan = CleanPlan { removals: Vec::new(), freed: 0, files: 0 };
    proof {
        assert(removals_view(plan.removals@) =~= seq![]);
    }
    match root {
        Some(Entry::Dir { children, .. }) => {
            let mut i: usize = 0;
            while i < children.len()
                invariant
                    i <= children.len(),
                    root_rotated_bytes(*root) == rotated_bytes(children@),
                    root_rotated_removals(*root) == rotated_removals(children@),
                    plan.freed == rotated_bytes(children@.subrange(0, i as int)),
                    plan.files == rotated_removals(children@.subrange(0, i as int)).len(),
                    removals_view(plan.removals@) == rotated_removals(
                        children@.subrange(0, i as int),
                    ),
                decreases children.len() - i,
            {
                proof {
                    assert(children@.subrange(0, i + 1).drop_last() =~= children@.subrange(
                        0,
                        i as int,
                    ));
                    lemma_rotated_prefix(children@, i + 1);
                    assert(children@.subrange(0, i + 1).last() == children@[i as int]);
                }
                match &children[i] {
                    Entry::File { name, path, size } | Entry::Dir { name, path, size, .. } => {
                        if is_rotated_log_name(name) {
                            let add: u64 = match size {
                                Some(n) => *n,
                                None => 0,
                            };
                            match plan.freed.checked_add(add) {
                                Some(t) => plan.freed = t,
                                None => return Err(Overflow),
                            }
                            if plan.files == u32::MAX {
                                return Err(Overflow);
                            }
                            plan.files = plan.files + 1;
                            let ghost before = plan.removals@;
                            plan.removals.push(
                                Removal { kind: RemovalKind::File, path: copy_bytes(path) },
                            );
                            proof {
                                assert(removals_view(plan.removals@) =~= removals_view(before)
                                    + seq![(RemovalKind::File, path@)]);
                            }
                        }
                    },
                }
                i = i + 1;
            }
            proof {
                assert(children@.subrange(0, i as int) =~= children@);
            }
            Ok(plan)
        },
        _ => Ok(plan),
    }
}


/// Every deletion of a log cleaning of the entries `s` of a log directory
/// is a file deletion of one of those entries whose name marks a rotated
/// log.
pub proof fn law_rotated_removals_are_logs(s: Seq<Entry>)
    ensures
        forall|i: int|
            0 <= i < rotated_removals(s).len() ==> (#[trigger] rotated_removals(s)[i]).0
                == RemovalKind::File && exists|j: int|
                0 <= j < s.len() && is_rotated_name(entry_name(#[trigger] s[j]))
                    && entry_path(s[j]) == rotated_removals(s)[i].1,
    decreases s.len(),
{
    if s.len() > 0 {
        let pre = s.drop_last();
        law_rotated_removals_are_logs(pre);
        assert forall|i: int| 0 <= i < rotated_removals(s).len() implies (
        #[trigger] rotated_removals(s)[i]).0 == RemovalKind::File && exists|j: int|
            0 <= j < s.len() && is_rotated_name(entry_name(#[trigger] s[j])) && entry_path(s[j])
                == rotated_removals(s)[i].1 by {
            if i < rotated_removals(pre).len() {
                let j = choose|j: int|
                    0 <= j < pre.len() && is_rotated_name(entry_name(#[trigger] pre[j]))
                        && entry_path(pre[j]) == rotated_removals(pre)[i].1;
                assert(s[j] == pre[j]);
            } else {
                assert(s[s.len() - 1] == s.last());
            }
        }
    }
}


/// Whether an entry's name does not mark a rotated log.
pub open spec fn kept_by_log_clean(e: Entry) -> bool {
    !is_rotated_name(entry_name(e))
}

/// `after` is a snapshot of the same log directory once every planned
/// deletion of a log cleaning of `before` has succeeded (so none of the
/// deleted entries was a directory): the directory keeps, in order, exactly
/// its entries whose names do not mark a rotated log. A missing path or a
/// file, of which nothing is deleted, stays as it was.
pub open spec fn log_cleaned_snapshot(before: Option<Entry>, after: Option<Entry>) -> bool {
    match before {
        Some(Entry::Dir { path, name, children, .. }) => match after {
            Some(Entry::Dir { path: p2, name: n2, children: c2, .. }) => p2@ == path@ && n2@
                == name@ && c2@ == children@.filter(|e: Entry| kept_by_log_clean(e)),
            _ => false,
        },
        _ => after == before,
    }
}

proof fn lemma_no_rotated_left(s: Seq<Entry>)
    requires
        forall|k: int| 0 <= k < s.len() ==> kept_by_log_clean(#[trigger] s[k]),
    ensures
        rotated_bytes(s) == 0,
        rotated_removals(s) == Seq::<(RemovalKind, Seq<u8>)>::empty(),
    decreases s.len(),
{
    if s.len() > 0 {
        assert forall|k: int| 0 <= k < s.drop_last().len() implies kept_by_log_clean(
            #[trigger] s.drop_last()[k],
        ) by {
            assert(s.drop_last()[k] == s[k]);
        }
        lemma_no_rotated_left(s.drop_last());
        assert(kept_by_log_clean(s[s.len() - 1]));
        assert(rotated_removals(s) =~= rotated_removals(s.drop_last()));
    }
}

/// Once a log cleaning has carried out all its deletions, a scan of the log
/// directory counts nothing and cleaning it again frees nothing, removes
/// nothing and plans no deletion.
pub proof fn law_nothing_left_after_log_clean(before: Option<Entry>, after: Option<Entry>)
    requires
        log_cleaned_snapshot(before, after),
    ensures
        root_rotated_bytes(after) == 0,
        root_rotated_removals(after) == Seq::<(RemovalKind, Seq<u8>)>::empty(),
{
    broadcast use vstd::seq_lib::group_filter_ensures;

    match before {
        Some(Entry::Dir { children, .. }) => match after {
            Some(Entry::Dir { children: c2, .. }) => {
                let pred = |e: Entry| kept_by_log_clean(e);
                assert forall|k: int| 0 <= k < c2@.len() implies kept_by_log_clean(
                    #[trigger] c2@[k],
                ) by {
                    assert(pred(children@.filter(pred)[k]));
                }
                lemma_no_rotated_left(c2@);
            },
            _ => {},
        },
        _ => {},
    }
}


/// Whether `name` ends with the given bytes.
pub open spec fn name_ends(name: Seq<u8>, tail: Seq<u8>) -> bool {
    tail.len() <= name.len() && forall|i: int|
        0 <= i < tail.len() ==> #[trigger] name[name.len() - tail.len() + i] == tail[i]
}

proof fn lemma_name_ends(name: Seq<u8>, tail: Seq<u8>)
    ensures
        name_ends(name, tail) <==> ends_with_bytes(name, tail),
{
    if name_ends(name, tail) {
        let t = name.skip(name.len() - tail.len());
        assert forall|i: int| 0 <= i < tail.len() implies t[i] == tail[i] by {
            assert(name[name.len() - tail.len() + i] == tail[i]);
        }
        assert(t =~= tail);
    }
    if ends_with_bytes(name, tail) {
        assert forall|i: int| 0 <= i < tail.len() implies #[trigger] name[name.len() - tail.len() + i]
            == tail[i] by {
            assert(name.skip(name.len() - tail.len())[i] == tail[i]);
        }
    }
}

/// A name marks a rotated or compressed log exactly when it ends with
/// `.gz`, `.old`, `.1`, `.2` or `.3` (the ASCII bytes 46 for `.`, 103 `g`,
/// 122 `z`, 111 `o`, 108 `l`, 100 `d`, 49 `1`, 50 `2`, 51 `3`).
pub proof fn law_rotated_endings(name: Seq<u8>)
    ensures
        is_rotated_name(name) <==> (name_ends(name, seq![46u8, 103u8, 122u8]) || name_ends(
            name,
            seq![46u8, 111u8, 108u8, 100u8],
        ) || name_ends(name, seq![46u8, 49u8]) || name_ends(name, seq![46u8, 50u8]) || name_ends(
            name,
            seq![46u8, 51u8],
        )),
{
    let e = rotated_endings();
    lemma_name_ends(name, seq![46u8, 103u8, 122u8]);
    lemma_name_ends(name, seq![46u8, 111u8, 108u8, 100u8]);
    lemma_name_ends(name, seq![46u8, 49u8]);
    lemma_name_ends(name, seq![46u8, 50u8]);
    lemma_name_ends(name, seq![46u8, 51u8]);
    assert(e[0] =~= seq![46u8, 103u8, 122u8]);
    assert(e[1] =~= seq![46u8, 111u8, 108u8, 100u8]);
    assert(e[2] =~= seq![46u8, 49u8]);
    assert(e[3] =~= seq![46u8, 50u8]);
    assert(e[4] =~= seq![46u8, 51u8]);
    if is_rotated_name(name) {
        let k = choose|k: int| 0 <= k < e.len() && ends_with_bytes(name, #[trigger] e[k]);
        if k == 0 {
        } else if k == 1 {
        } else if k == 2 {
        } else if k == 3 {
        } else {
        }
    }
    if name_ends(name, seq![46u8, 103u8, 122u8]) {
        assert(ends_with_bytes(name, e[0]));
    } else if name_ends(name, seq![46u8, 111u8, 108u8, 100u8]) {
        assert(ends_with_bytes(name, e[1]));
    } else if name_ends(name, seq![46u8, 49u8]) {
        assert(ends_with_bytes(name, e[2]));
    } else if name_ends(name, seq![46u8, 50u8]) {
        assert(ends_with_bytes(name, e[3]));
    } else if name_ends(name, seq![46u8, 51u8]) {
        assert(ends_with_bytes(name, e[4]));
    }
}

} // verus!
