use vstd::prelude::*;

use crate::logs::entry_meta;
use crate::logs::entry_path;
use crate::logs::is_rotated_name;
use crate::logs::entry_name;
use crate::logs::root_rotated_bytes;
use crate::logs::root_rotated_removals;
use crate::logs::rotated_bytes;
use crate::logs::rotated_removals;
use crate::tree::clean_bytes;
use crate::tree::clean_files;
use crate::tree::entry_bytes;
use crate::tree::file_lengths;
use crate::tree::law_collected_files_are_summed;
use crate::tree::root_file_entries;
use crate::tree::Entry;

verus! {

/// Whether `p` is the path `root` itself or lies below it.
pub open spec fn under_path(root: Seq<u8>, p: Seq<u8>) -> bool {
    ||| p == root
    ||| root.len() < p.len() && p.take(root.len() as int) == root && p[root.len() as int] == 47u8
}

/// Whether `p` names an entry directly inside `dir` whose name marks a
/// rotated log (`47` is the byte of `/`).
pub open spec fn rotated_log_in(dir: Seq<u8>, p: Seq<u8>) -> bool {
    &&& dir.len() < p.len()
    &&& p.take(dir.len() as int) == dir
    &&& p[dir.len() as int] == 47u8
    &&& !p.skip(dir.len() as int + 1).contains(47u8)
    &&& is_rotated_name(p.skip(dir.len() as int + 1))
}

/// Whether a cleaning step removes the file at `p`. A step is the rotated
/// logs directly in a directory (`step.0` true) or everything at and below
/// a path (`step.0` false).
pub open spec fn step_takes(step: (bool, Seq<u8>), p: Seq<u8>) -> bool {
    if step.0 {
        rotated_log_in(step.1, p)
    } else {
        under_path(step.1, p)
    }
}

/// The files a step removes, as a filter on files.
pub open spec fn taken_by(step: (bool, Seq<u8>)) -> spec_fn((Seq<u8>, nat)) -> bool {
    |f: (Seq<u8>, nat)| step_takes(step, f.0)
}

/// The files a step leaves, as a filter on files.
pub open spec fn kept_by(step: (bool, Seq<u8>)) -> spec_fn((Seq<u8>, nat)) -> bool {
    |f: (Seq<u8>, nat)| !step_takes(step, f.0)
}

/// The bytes counted for the files: each file is its path and the bytes a
/// cleaning counts for it (its metadata length, 0 when unreadable).
pub open spec fn files_sum(fs: Seq<(Seq<u8>, nat)>) -> nat
    decreases fs.len(),
{
    if fs.len() == 0 {
        0
    } else {
        files_sum(fs.drop_last()) + fs.last().1
    }
}

/// A cleaning run over the files `fs`, one step after another, every
/// deletion succeeding: the bytes and files reported, and the files left.
pub open spec fn clean_run(fs: Seq<(Seq<u8>, nat)>, steps: Seq<(bool, Seq<u8>)>) -> (
    nat,
    nat,
    Seq<(Seq<u8>, nat)>,
)
    decreases steps.len(),
{
    if steps.len() == 0 {
        (0, 0, fs)
    } else {
        let prev = clean_run(fs, steps.drop_last());
        let taken = prev.2.filter(taken_by(steps.last()));
        (prev.0 + files_sum(taken), prev.1 + taken.len(), prev.2.filter(kept_by(steps.last())))
    }
}

/// Whether no step of the run removes the file at `p`.
pub open spec fn survives(steps: Seq<(bool, Seq<u8>)>, p: Seq<u8>) -> bool {
    forall|i: int| 0 <= i < steps.len() ==> !step_takes(#[trigger] steps[i], p)
}

proof fn lemma_filter_filter<A>(s: Seq<A>, p: spec_fn(A) -> bool, q: spec_fn(A) -> bool, r: spec_fn(A) -> bool)
    requires
        forall|x: A| #[trigger] r(x) == (p(x) && q(x)),
    ensures
        s.filter(p).filter(q) == s.filter(r),
    decreases s.len(),
{
    broadcast use vstd::seq::Seq::lemma_filter_push;

    if s.len() == 0 {
        assert(s.filter(p) =~= s);
        assert(s.filter(p).filter(q) =~= s);
        assert(s.filter(r) =~= s);
    } else {
        let t = s.drop_last();
        let x = s.last();
        lemma_filter_filter(t, p, q, r);
        assert(s == t.push(x));
        if p(x) {
            assert(s.filter(p) == t.filter(p).push(x));
        }
    }
}

proof fn lemma_split(s: Seq<(Seq<u8>, nat)>, step: (bool, Seq<u8>))
    ensures
        files_sum(s) == files_sum(s.filter(taken_by(step))) + files_sum(s.filter(kept_by(step))),
        s.len() == s.filter(taken_by(step)).len() + s.filter(kept_by(step)).len(),
    decreases s.len(),
{
    broadcast use vstd::seq::Seq::lemma_filter_push;

    let t_ = taken_by(step);
    let k_ = kept_by(step);
    if s.len() == 0 {
        assert(s.filter(t_) =~= s);
        assert(s.filter(k_) =~= s);
    } else {
        let t = s.drop_last();
        let x = s.last();
        lemma_split(t, step);
        assert(s == t.push(x));
        if t_(x) {
            assert(s.filter(t_) == t.filter(t_).push(x));
            assert(s.filter(k_) == t.filter(k_));
            assert(s.filter(t_).drop_last() == t.filter(t_));
        } else {
            assert(s.filter(k_) == t.filter(k_).push(x));
            assert(s.filter(t_) == t.filter(t_));
            assert(s.filter(k_).drop_last() == t.filter(k_));
        }
    }
}

/// What a run leaves is exactly the files no step removes, and what it
/// reports is exactly what it removed.
pub proof fn law_run_accounts_for_removed(fs: Seq<(Seq<u8>, nat)>, steps: Seq<(bool, Seq<u8>)>)
    ensures
        clean_run(fs, steps).2 == fs.filter(|f: (Seq<u8>, nat)| survives(steps, f.0)),
        clean_run(fs, steps).0 + files_sum(clean_run(fs, steps).2) == files_sum(fs),
        clean_run(fs, steps).1 + clean_run(fs, steps).2.len() == fs.len(),
    decreases steps.len(),
{
    if steps.len() == 0 {
        let p = |f: (Seq<u8>, nat)| survives(steps, f.0);
        assert forall|i: int| 0 <= i < fs.len() implies p(#[trigger] fs[i]) by {}
        lemma_filter_all(fs, p);
    } else {
        let dl = steps.drop_last();
        let last = steps.last();
        law_run_accounts_for_removed(fs, dl);
        let rest = clean_run(fs, dl).2;
        lemma_split(rest, last);
        let p = |f: (Seq<u8>, nat)| survives(dl, f.0);
        let r = |f: (Seq<u8>, nat)| survives(steps, f.0);
        assert forall|x: (Seq<u8>, nat)| #[trigger] r(x) == (p(x) && kept_by(last)(x)) by {
            if p(x) && kept_by(last)(x) {
                assert forall|i: int| 0 <= i < steps.len() implies !step_takes(
                    #[trigger] steps[i],
                    x.0,
                ) by {
                    if i < dl.len() {
                        assert(steps[i] == dl[i]);
                    }
                }
            }
            if r(x) {
                assert forall|i: int| 0 <= i < dl.len() implies !step_takes(#[trigger] dl[i], x.0) by {
                    assert(steps[i] == dl[i]);
                }
                assert(!step_takes(steps[steps.len() - 1], x.0));
            }
        }
        lemma_filter_filter(fs, p, kept_by(last), r);
    }
}

proof fn lemma_filter_all<A>(s: Seq<A>, p: spec_fn(A) -> bool)
    requires
        forall|i: int| 0 <= i < s.len() ==> p(#[trigger] s[i]),
    ensures
        s.filter(p) == s,
    decreases s.len(),
{
    broadcast use vstd::seq::Seq::lemma_filter_push;

    if s.len() == 0 {
        assert(s.filter(p) =~= s);
    } else {
        let t = s.drop_last();
        assert forall|i: int| 0 <= i < t.len() implies p(#[trigger] t[i]) by {
            assert(t[i] == s[i]);
        }
        lemma_filter_all(t, p);
        assert(s == t.push(s.last()));
        assert(p(s[s.len() - 1]));
    }
}

/// Cleaning the same steps in another order (any run made of the same
/// steps) removes the same files and reports the same bytes and files.
pub proof fn law_clean_order_irrelevant(
    fs: Seq<(Seq<u8>, nat)>,
    a: Seq<(bool, Seq<u8>)>,
    b: Seq<(bool, Seq<u8>)>,
)
    requires
        forall|x: (bool, Seq<u8>)| a.contains(x) <==> b.contains(x),
    ensures
        clean_run(fs, a) == clean_run(fs, b),
{
    law_run_accounts_for_removed(fs, a);
    law_run_accounts_for_removed(fs, b);
    let pa = |f: (Seq<u8>, nat)| survives(a, f.0);
    let pb = |f: (Seq<u8>, nat)| survives(b, f.0);
    assert forall|f: (Seq<u8>, nat)| #[trigger] pa(f) == pb(f) by {
        if pa(f) {
            assert forall|i: int| 0 <= i < b.len() implies !step_takes(#[trigger] b[i], f.0) by {
                assert(b.contains(b[i]));
                let j = choose|j: int| 0 <= j < a.len() && a[j] == b[i];
                assert(!step_takes(a[j], f.0));
            }
        }
        if pb(f) {
            assert forall|i: int| 0 <= i < a.len() implies !step_takes(#[trigger] a[i], f.0) by {
                assert(a.contains(a[i]));
                let j = choose|j: int| 0 <= j < b.len() && b[j] == a[i];
                assert(!step_takes(b[j], f.0));
            }
        }
    }
    assert(pa =~= pb);
}


proof fn lemma_files_sum_concat(a: Seq<(Seq<u8>, nat)>, b: Seq<(Seq<u8>, nat)>)
    ensures
        files_sum(a + b) == files_sum(a) + files_sum(b),
    decreases b.len(),
{
    if b.len() == 0 {
        assert(a + b =~= a);
    } else {
        assert((a + b).drop_last() =~= a + b.drop_last());
        lemma_files_sum_concat(a, b.drop_last());
    }
}

proof fn lemma_files_sum_multiset(s: Seq<(Seq<u8>, nat)>, t: Seq<(Seq<u8>, nat)>)
    requires
        s.to_multiset() == t.to_multiset(),
    ensures
        files_sum(s) == files_sum(t),
        s.len() == t.len(),
    decreases s.len(),
{
    broadcast use vstd::seq_lib::group_to_multiset_ensures;
    broadcast use vstd::multiset::group_multiset_axioms;

    if s.len() == 0 {
        assert(t.to_multiset().len() == 0);
        assert(t =~= Seq::<(Seq<u8>, nat)>::empty());
    } else {
        let dl = s.drop_last();
        let x = s.last();
        assert(s == dl.push(x));
        assert(s.to_multiset() =~= dl.to_multiset().insert(x));
        assert(t.to_multiset().count(x) > 0);
        assert(t.contains(x));
        let k = choose|k: int| 0 <= k < t.len() && t[k] == x;
        let u = t.remove(k);
        assert(u.to_multiset() =~= t.to_multiset().remove(x));
        assert(dl.to_multiset() =~= u.to_multiset());
        lemma_files_sum_multiset(dl, u);
        assert(t =~= t.take(k) + seq![x] + t.skip(k + 1));
        assert(u =~= t.take(k) + t.skip(k + 1));
        lemma_files_sum_concat(t.take(k) + seq![x], t.skip(k + 1));
        lemma_files_sum_concat(t.take(k), seq![x]);
        lemma_files_sum_concat(t.take(k), t.skip(k + 1));
        assert(seq![x].drop_last() =~= Seq::<(Seq<u8>, nat)>::empty());
        assert(files_sum(Seq::<(Seq<u8>, nat)>::empty()) == 0);
        assert(seq![x].last() == x);
        assert(files_sum(seq![x]) == x.1);
        assert(s.drop_last() == dl);
    }
}

/// A file entry as a file of the run: its path and its counted bytes.
pub open spec fn entry_file(e: Entry) -> (Seq<u8>, nat) {
    (entry_path(e), entry_bytes(e))
}

/// The files a snapshot of a path shows for cleaning everything at and
/// below it: the file itself, or every file below the directory.
pub open spec fn snapshot_files(root: Option<Entry>) -> Seq<(Seq<u8>, nat)> {
    match root {
        Some(Entry::File { .. }) => seq![entry_file(root.unwrap())],
        Some(Entry::Dir { .. }) => root_file_entries(root).map_values(|e: Entry| entry_file(e)),
        None => seq![],
    }
}

/// Whether an entry's name marks a rotated log, as a filter on entries.
pub open spec fn rotated_entry() -> spec_fn(Entry) -> bool {
    |e: Entry| is_rotated_name(entry_name(e))
}

/// A rotated-log entry as a file of the run: its path and the bytes a log
/// cleaning counts for it (its metadata length, 0 when unreadable).
pub open spec fn log_file(e: Entry) -> (Seq<u8>, nat) {
    (
        entry_path(e),
        match entry_meta(e) {
            Some(n) => n as nat,
            None => 0,
        },
    )
}

/// The files a snapshot of a log directory shows for a log cleaning: the
/// entries directly in it whose names mark rotated logs.
pub open spec fn log_snapshot_files(root: Option<Entry>) -> Seq<(Seq<u8>, nat)> {
    match root {
        Some(Entry::Dir { children, .. }) => children@.filter(rotated_entry()).map_values(
            |e: Entry| log_file(e),
        ),
        _ => seq![],
    }
}

/// Whether `root`, a snapshot taken for the step, shows (in any order)
/// exactly the files of `fs` that the step removes.
pub open spec fn snapshot_matches(fs: Seq<(Seq<u8>, nat)>, step: (bool, Seq<u8>), root: Option<Entry>) -> bool {
    if step.0 {
        log_snapshot_files(root).to_multiset() == fs.filter(taken_by(step)).to_multiset()
    } else {
        snapshot_files(root).to_multiset() == fs.filter(taken_by(step)).to_multiset()
    }
}

/// What the library's plan for a step reports: bytes freed and files
/// removed (`plan_clean_rotated` for a log step, `plan_clean_path` otherwise).
pub open spec fn step_report(step: (bool, Seq<u8>), root: Option<Entry>) -> (nat, nat) {
    if step.0 {
        (root_rotated_bytes(root), root_rotated_removals(root).len())
    } else {
        (clean_bytes(root), clean_files(root))
    }
}

proof fn lemma_map_files_sum(s: Seq<Entry>)
    ensures
        files_sum(s.map_values(|e: Entry| entry_file(e))) == file_lengths(s),
    decreases s.len(),
{
    if s.len() > 0 {
        lemma_map_files_sum(s.drop_last());
        assert(s.map_values(|e: Entry| entry_file(e)).drop_last() =~= s.drop_last().map_values(
            |e: Entry| entry_file(e),
        ));
    }
}

proof fn lemma_log_files(s: Seq<Entry>)
    ensures
        files_sum(s.filter(rotated_entry()).map_values(|e: Entry| log_file(e))) == rotated_bytes(s),
        s.filter(rotated_entry()).len() == rotated_removals(s).len(),
    decreases s.len(),
{
    broadcast use vstd::seq::Seq::lemma_filter_push;

    if s.len() == 0 {
        assert(s.filter(rotated_entry()) =~= s);
    } else {
        let t = s.drop_last();
        let x = s.last();
        lemma_log_files(t);
        assert(s == t.push(x));
        let f = |e: Entry| log_file(e);
        if rotated_entry()(x) {
            let ft = t.filter(rotated_entry());
            assert(s.filter(rotated_entry()) == ft.push(x));
            assert(ft.push(x).map_values(f).drop_last() =~= ft.map_values(f));
        } else {
            assert(s.filter(rotated_entry()) == t.filter(rotated_entry()));
        }
    }
}

/// The library's plan for a step, given a snapshot showing exactly the
/// files the step removes, reports exactly their bytes and their number.
pub proof fn law_plan_reports_taken_files(fs: Seq<(Seq<u8>, nat)>, step: (bool, Seq<u8>), root: Option<Entry>)
    requires
        snapshot_matches(fs, step, root),
    ensures
        step_report(step, root) == (
            files_sum(fs.filter(taken_by(step))),
            fs.filter(taken_by(step)).len(),
        ),
{
    let taken = fs.filter(taken_by(step));
    if step.0 {
        lemma_files_sum_multiset(log_snapshot_files(root), taken);
        match root {
            Some(Entry::Dir { children, .. }) => {
                lemma_log_files(children@);
                assert(log_snapshot_files(root).len() == children@.filter(rotated_entry()).len());
            },
            _ => {
                assert(files_sum(Seq::<(Seq<u8>, nat)>::empty()) == 0);
            },
        }
    } else {
        lemma_files_sum_multiset(snapshot_files(root), taken);
        match root {
            Some(Entry::File { .. }) => {
                let one = seq![entry_file(root.unwrap())];
                assert(one.drop_last() =~= Seq::<(Seq<u8>, nat)>::empty());
                assert(files_sum(Seq::<(Seq<u8>, nat)>::empty()) == 0);
                assert(files_sum(one) == entry_bytes(root.unwrap()));
                assert(clean_bytes(root) == entry_bytes(root.unwrap()));
            },
            Some(Entry::Dir { children, .. }) => {
                law_collected_files_are_summed(root);
                lemma_map_files_sum(root_file_entries(root));
                let fe = root_file_entries(root);
                assert(fe.map_values(|x: Entry| match x {
                    Entry::File { path, .. } => path@,
                    Entry::Dir { path, .. } => path@,
                }).len() == fe.len());
                assert(snapshot_files(root).len() == fe.len());
                assert(clean_files(root) == fe.len());
                assert(clean_bytes(root) == file_lengths(fe));
            },
            None => {
                assert(files_sum(Seq::<(Seq<u8>, nat)>::empty()) == 0);
            },
        }
    }
}


/// What a run of the library's plans reports over its steps, the `i`-th
/// planned from the snapshot `snaps[i]`: the sums of the steps' bytes and
/// files.
pub open spec fn run_report(steps: Seq<(bool, Seq<u8>)>, snaps: Seq<Option<Entry>>) -> (nat, nat)
    decreases steps.len(),
{
    if steps.len() == 0 {
        (0, 0)
    } else {
        let prev = run_report(steps.drop_last(), snaps);
        let r = step_report(steps.last(), snaps[steps.len() - 1]);
        (prev.0 + r.0, prev.1 + r.1)
    }
}

/// Each step's snapshot shows exactly the files it removes among those the
/// earlier steps left.
pub open spec fn snapshots_follow(
    fs: Seq<(Seq<u8>, nat)>,
    steps: Seq<(bool, Seq<u8>)>,
    snaps: Seq<Option<Entry>>,
) -> bool {
    &&& snaps.len() == steps.len()
    &&& forall|i: int|
        0 <= i < steps.len() ==> snapshot_matches(
            clean_run(fs, steps.take(i)).2,
            steps[i],
            #[trigger] snaps[i],
        )
}

proof fn lemma_plans_report_run(
    fs: Seq<(Seq<u8>, nat)>,
    steps: Seq<(bool, Seq<u8>)>,
    snaps: Seq<Option<Entry>>,
)
    requires
        snaps.len() >= steps.len(),
        forall|i: int|
            0 <= i < steps.len() ==> snapshot_matches(
                clean_run(fs, steps.take(i)).2,
                steps[i],
                #[trigger] snaps[i],
            ),
    ensures
        run_report(steps, snaps) == (clean_run(fs, steps).0, clean_run(fs, steps).1),
    decreases steps.len(),
{
    if steps.len() > 0 {
        let dl = steps.drop_last();
        let n = steps.len() - 1;
        assert forall|i: int| 0 <= i < dl.len() implies snapshot_matches(
            clean_run(fs, dl.take(i)).2,
            dl[i],
            #[trigger] snaps[i],
        ) by {
            assert(dl.take(i) =~= steps.take(i));
            assert(dl[i] == steps[i]);
            assert(snapshot_matches(clean_run(fs, steps.take(i)).2, steps[i], snaps[i]));
        }
        lemma_plans_report_run(fs, dl, snaps);
        assert(steps.take(n) =~= dl);
        assert(snapshot_matches(clean_run(fs, steps.take(n)).2, steps[n], snaps[n]));
        law_plan_reports_taken_files(clean_run(fs, dl).2, steps.last(), snaps[n]);
    }
}

/// When each step's snapshot shows what the earlier steps left, the
/// library's plans report, summed over the run, exactly the bytes and files
/// the run removes.
pub proof fn law_plans_report_run(
    fs: Seq<(Seq<u8>, nat)>,
    steps: Seq<(bool, Seq<u8>)>,
    snaps: Seq<Option<Entry>>,
)
    requires
        snapshots_follow(fs, steps, snaps),
    ensures
        run_report(steps, snaps) == (clean_run(fs, steps).0, clean_run(fs, steps).1),
{
    lemma_plans_report_run(fs, steps, snaps);
}

/// Cleaning the selected categories in another order, each step planned by
/// the library from a fresh snapshot, leaves the same files and reports the
/// same bytes freed and files removed.
pub proof fn law_plan_order_irrelevant(
    fs: Seq<(Seq<u8>, nat)>,
    a: Seq<(bool, Seq<u8>)>,
    snaps_a: Seq<Option<Entry>>,
    b: Seq<(bool, Seq<u8>)>,
    snaps_b: Seq<Option<Entry>>,
)
    requires
        forall|x: (bool, Seq<u8>)| a.contains(x) <==> b.contains(x),
        snapshots_follow(fs, a, snaps_a),
        snapshots_follow(fs, b, snaps_b),
    ensures
        run_report(a, snaps_a) == run_report(b, snaps_b),
        clean_run(fs, a).2 == clean_run(fs, b).2,
{
    law_clean_order_irrelevant(fs, a, b);
    law_plans_report_run(fs, a, snaps_a);
    law_plans_report_run(fs, b, snaps_b);
}

} // verus!
