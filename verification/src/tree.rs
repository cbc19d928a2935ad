use vstd::prelude::*;

verus! {

/// One entry of a directory snapshot: a file, or a directory with the
/// entries read from it (empty when it could not be read).
/// `size` is the length reported by the entry's metadata, `None` when the
/// metadata could not be read.
pub enum Entry {
    File { path: Vec<u8>, name: Vec<u8>, size: Option<u64> },
    Dir { path: Vec<u8>, name: Vec<u8>, size: Option<u64>, children: Vec<Entry> },
}

/// Bytes counted for one entry: a file's metadata length (0 when unknown),
/// or the bytes of everything below a directory.
pub open spec fn entry_bytes(e: Entry) -> nat
    decreases e,
{
    match e {
        Entry::File { size, .. } => match size {
            Some(n) => n as nat,
            None => 0,
        },
        Entry::Dir { children, .. } => entries_bytes(children@),
    }
}

/// Bytes counted for a sequence of sibling entries.
pub open spec fn entries_bytes(s: Seq<Entry>) -> nat
    decreases s,
{
    if s.len() == 0 {
        0
    } else {
        entries_bytes(s.subrange(0, s.len() - 1)) + entry_bytes(s[s.len() - 1])
    }
}


/// `n` as a `u64` when it fits, `None` when a `u64` sum would overflow.
pub open spec fn fit_u64(n: nat) -> Option<u64> {
    if n <= u64::MAX {
        Some(n as u64)
    } else {
        None
    }
}

/// Adding the last entry of a prefix never makes the bytes smaller.
pub proof fn lemma_entries_bytes_prefix(s: Seq<Entry>, k: int)
    requires
        0 <= k <= s.len(),
    ensures
        entries_bytes(s.subrange(0, k)) <= entries_bytes(s),
    decreases s.len() - k,
{
    if k < s.len() {
        lemma_entries_bytes_prefix(s, k + 1);
        assert(s.subrange(0, k + 1).subrange(0, k) =~= s.subrange(0, k));
    } else {
        assert(s.subrange(0, k) =~= s);
    }
}

/// Total bytes of the entries: the file lengths summed depth-first, in
/// order; `None` exactly when the total does not fit in a `u64`.
fn entries_size(entries: &Vec<Entry>) -> (r: Option<u64>)
    ensures
        r == fit_u64(entries_bytes(entries@)),
    decreases entries,
{
    let mut total: u64 = 0;
    let mut i: usize = 0;
    while i < entries.len()
        invariant
            i <= entries.len(),
            total as nat == entries_bytes(entries@.subrange(0, i as int)),
        decreases entries.len() - i,
    {
        proof {
            assert(entries@.subrange(0, i + 1).subrange(0, i as int) =~= entries@.subrange(0, i as int));
            lemma_entries_bytes_prefix(entries@, i + 1);
            assert(entries_bytes(entries@.subrange(0, i + 1)) == entries_bytes(
                entries@.subrange(0, i as int),
            ) + entry_bytes(entries@[i as int]));
        }
        let add: u64 = match &entries[i] {
            Entry::File { size, .. } => match size {
                Some(n) => *n,
                None => 0,
            },
            Entry::Dir { children, .. } => {
                proof {
                    assert(decreases_to!(entries => entries@));
                    assert(decreases_to!(entries@ => entries@[i as int]));
                }
                match entries_size(children) {
                    Some(n) => n,
                    None => return None,
                }
            },
        };
        match total.checked_add(add) {
            Some(t) => total = t,
            None => return None,
        }
        i = i + 1;
    }
    proof {
        assert(entries@.subrange(0, i as int) =~= entries@);
    }
    Some(total)
}


/// Bytes of everything below the path a snapshot was taken of: nothing when
/// the path does not exist, nothing when it is a file (a file cannot be
/// listed), the entries' bytes when it is a directory.
pub open spec fn root_bytes(root: Option<Entry>) -> nat {
    match root {
        Some(Entry::Dir { children, .. }) => entries_bytes(children@),
        _ => 0,
    }
}

/// Size of a directory tree: the sum of the metadata lengths of all files
/// below it, following subdirectories. `None` when the sum overflows a `u64`.
pub fn dir_size(root: &Option<Entry>) -> (r: Option<u64>)
    ensures
        r == fit_u64(root_bytes(*root)),
{
    match root {
        Some(Entry::Dir { children, .. }) => entries_size(children),
        _ => Some(0),
    }
}

/// The path of every file in an entry, in the order of a depth-first walk.
pub open spec fn entry_files(e: Entry) -> Seq<Seq<u8>>
    decreases e,
{
    match e {
        Entry::File { path, .. } => seq![path@],
        Entry::Dir { children, .. } => entries_files(children@),
    }
}

/// The file paths of a sequence of sibling entries, in order.
pub open spec fn entries_files(s: Seq<Entry>) -> Seq<Seq<u8>>
    decreases s,
{
    if s.len() == 0 {
        seq![]
    } else {
        entries_files(s.subrange(0, s.len() - 1)) + entry_files(s[s.len() - 1])
    }
}

/// The file paths below the path a snapshot was taken of.
pub open spec fn root_files(root: Option<Entry>) -> Seq<Seq<u8>> {
    match root {
        Some(Entry::Dir { children, .. }) => entries_files(children@),
        _ => seq![],
    }
}

/// The byte strings held by a vector of paths.
pub open spec fn paths_view(v: Seq<Vec<u8>>) -> Seq<Seq<u8>> {
    v.map_values(|p: Vec<u8>| p@)
}

/// A fresh copy of a byte string.
pub fn copy_bytes(v: &Vec<u8>) -> (r: Vec<u8>)
    ensures
        r@ == v@,
{
    let mut r: Vec<u8> = Vec::new();
    let mut i: usize = 0;
    while i < v.len()
        invariant
            i <= v.len(),
            r@ == v@.subrange(0, i as int),
        decreases v.len() - i,
    {
        r.push(v[i]);
        i = i + 1;
    }
    proof {
        assert(v@.subrange(0, i as int) =~= v@);
    }
    r
}

fn collect_entries(entries: &Vec<Entry>, files: &mut Vec<Vec<u8>>)
    ensures
        paths_view(final(files)@) == paths_view(old(files)@) + entries_files(entries@),
    decreases entries,
{
    let ghost start = paths_view(files@);
    let mut i: usize = 0;
    while i < entries.len()
        invariant
            i <= entries.len(),
            paths_view(files@) == start + entries_files(entries@.subrange(0, i as int)),
        decreases entries.len() - i,
    {
        proof {
            assert(entries@.subrange(0, i + 1).subrange(0, i as int) =~= entries@.subrange(0, i as int));
            assert(entries_files(entries@.subrange(0, i + 1)) == entries_files(
                entries@.subrange(0, i as int),
            ) + entry_files(entries@[i as int]));
        }
        match &entries[i] {
            Entry::File { path, .. } => {
                let ghost before = files@;
                files.push(copy_bytes(path));
                proof {
                    assert(paths_view(files@) =~= paths_view(before) + seq![path@]);
                }
            },
            Entry::Dir { children, .. } => {
                proof {
                    assert(decreases_to!(entries => entries@));
                    assert(decreases_to!(entries@ => entries@[i as int]));
                }
                collect_entries(children, files);
            },
        }
        proof {
            assert(start + entries_files(entries@.subrange(0, i + 1)) =~= start
                + entries_files(entries@.subrange(0, i as int)) + entry_files(entries@[i as int]));
        }
        i = i + 1;
    }
    proof {
        assert(entries@.subrange(0, i as int) =~= entries@);
    }
}

/// Appends to `files` the path of every file below the snapshot's path, in
/// depth-first order; a missing path or a file adds nothing.
pub fn collect_files(root: &Option<Entry>, files: &mut Vec<Vec<u8>>)
    ensures
        paths_view(final(files)@) == paths_view(old(files)@) + root_files(*root),
{
    match root {
        Some(Entry::Dir { children, .. }) => collect_entries(children, files),
        _ => {
            proof {
                assert(paths_view(files@) =~= paths_view(files@) + seq![]);
            }
        },
    }
}


/// Adding the last entry of a prefix never lowers the number of files.
pub proof fn lemma_entries_files_prefix(s: Seq<Entry>, k: int)
    requires
        0 <= k <= s.len(),
    ensures
        entries_files(s.subrange(0, k)).len() <= entries_files(s).len(),
    decreases s.len() - k,
{
    if k < s.len() {
        lemma_entries_files_prefix(s, k + 1);
        assert(s.subrange(0, k + 1).subrange(0, k) =~= s.subrange(0, k));
    } else {
        assert(s.subrange(0, k) =~= s);
    }
}

/// Whether a removal deletes a file or an (emptied) directory.
#[derive(PartialEq, Eq, Structural, Clone, Copy, Debug)]
pub enum RemovalKind {
    File,
    Dir,
}

/// One deletion of a cleaning run.
pub struct Removal {
    pub kind: RemovalKind,
    pub path: Vec<u8>,
}

/// The deletions of a cleaning run, as kinds and paths.
pub open spec fn removals_view(v: Seq<Removal>) -> Seq<(RemovalKind, Seq<u8>)> {
    v.map_values(|r: Removal| (r.kind, r.path@))
}

/// The deletions that cleaning an entry performs, in order: a file is
/// removed; a directory is emptied first and then removed itself.
pub open spec fn entry_removals(e: Entry) -> Seq<(RemovalKind, Seq<u8>)>
    decreases e,
{
    match e {
        Entry::File { path, .. } => seq![(RemovalKind::File, path@)],
        Entry::Dir { path, children, .. } => entries_removals(children@) + seq![
            (RemovalKind::Dir, path@),
        ],
    }
}

/// The deletions for a sequence of sibling entries, in order.
pub open spec fn entries_removals(s: Seq<Entry>) -> Seq<(RemovalKind, Seq<u8>)>
    decreases s,
{
    if s.len() == 0 {
        seq![]
    } else {
        entries_removals(s.subrange(0, s.len() - 1)) + entry_removals(s[s.len() - 1])
    }
}

/// The deletions that cleaning a path performs: nothing for a missing path,
/// the file itself for a file, everything below a directory (the directory
/// itself stays).
pub open spec fn root_removals(root: Option<Entry>) -> Seq<(RemovalKind, Seq<u8>)> {
    match root {
        Some(Entry::File { path, .. }) => seq![(RemovalKind::File, path@)],
        Some(Entry::Dir { children, .. }) => entries_removals(children@),
        None => seq![],
    }
}

/// Bytes that cleaning a path reports as freed.
pub open spec fn clean_bytes(root: Option<Entry>) -> nat {
    match root {
        Some(Entry::File { size, .. }) => match size {
            Some(n) => n as nat,
            None => 0,
        },
        Some(Entry::Dir { children, .. }) => entries_bytes(children@),
        None => 0,
    }
}

/// Number of files that cleaning a path reports as removed.
pub open spec fn clean_files(root: Option<Entry>) -> nat {
    match root {
        Some(Entry::File { .. }) => 1,
        Some(Entry::Dir { children, .. }) => entries_files(children@).len(),
        None => 0,
    }
}

/// What a cleaning run deletes and what it reports: bytes freed and files
/// removed, counted from the metadata read before each deletion, whether or
/// not the deletion then succeeds.
pub struct CleanPlan {
    pub removals: Vec<Removal>,
    pub freed: u64,
    pub files: u32,
}

/// A byte or file count went past what its counter holds.
#[derive(PartialEq, Eq, Structural, Clone, Copy, Debug)]
pub struct Overflow;

fn plan_entries(entries: &Vec<Entry>, plan: &mut CleanPlan) -> (ok: bool)
    ensures
        ok <==> (old(plan).freed + entries_bytes(entries@) <= u64::MAX && old(plan).files
            + entries_files(entries@).len() <= u32::MAX),
        ok ==> final(plan).freed == old(plan).freed + entries_bytes(entries@),
        ok ==> final(plan).files == old(plan).files + entries_files(entries@).len(),
        ok ==> removals_view(final(plan).removals@) == removals_view(old(plan).removals@)
            + entries_removals(entries@),
    decreases entries,
{
    let ghost freed0 = plan.freed as nat;
    let ghost files0 = plan.files as nat;
    let ghost rem0 = removals_view(plan.removals@);
    let mut i: usize = 0;
    while i < entries.len()
        invariant
            i <= entries.len(),
            freed0 == old(plan).freed,
            files0 == old(plan).files,
            rem0 == removals_view(old(plan).removals@),
            plan.freed == freed0 + entries_bytes(entries@.subrange(0, i as int)),
            plan.files == files0 + entries_files(entries@.subrange(0, i as int)).len(),
            removals_view(plan.removals@) == rem0 + entries_removals(
                entries@.subrange(0, i as int),
            ),
        decreases entries.len() - i,
    {
        let ghost pre = entries@.subrange(0, i as int);
        let ghost post = entries@.subrange(0, i + 1);
        proof {
            assert(post.subrange(0, i as int) =~= pre);
            assert(entries_bytes(post) == entries_bytes(pre) + entry_bytes(entries@[i as int]));
            assert(entries_files(post) == entries_files(pre) + entry_files(entries@[i as int]));
            assert(entries_removals(post) == entries_removals(pre) + entry_removals(
                entries@[i as int],
            ));
            lemma_entries_bytes_prefix(entries@, i + 1);
            lemma_entries_files_prefix(entries@, i + 1);
        }
        match &entries[i] {
            Entry::File { path, size, .. } => {
                let add: u64 = match size {
                    Some(n) => *n,
                    None => 0,
                };
                assert(entry_bytes(entries@[i as int]) == add);
                assert(entry_files(entries@[i as int]).len() == 1);
                match plan.freed.checked_add(add) {
                    Some(t) => plan.freed = t,
                    None => return false,
                }
                if plan.files == u32::MAX {
                    return false;
                }
                plan.files = plan.files + 1;
                let ghost before = plan.removals@;
                plan.removals.push(Removal { kind: RemovalKind::File, path: copy_bytes(path) });
                proof {
                    assert(removals_view(plan.removals@) =~= removals_view(before) + seq![
                        (RemovalKind::File, path@),
                    ]);
                }
            },
            Entry::Dir { path, children, .. } => {
                proof {
                    assert(decreases_to!(entries => entries@));
                    assert(decreases_to!(entries@ => entries@[i as int]));
                }
                assert(entry_bytes(entries@[i as int]) == entries_bytes(children@));
                assert(entry_files(entries@[i as int]) == entries_files(children@));
                if !plan_entries(children, plan) {
                    return false;
                }
                let ghost before = plan.removals@;
                plan.removals.push(Removal { kind: RemovalKind::Dir, path: copy_bytes(path) });
                proof {
                    assert(removals_view(plan.removals@) =~= removals_view(before) + seq![
                        (RemovalKind::Dir, path@),
                    ]);
                }
            },
        }
        proof {
            assert(rem0 + entries_removals(post) =~= rem0 + entries_removals(pre)
                + entry_removals(entries@[i as int]));
        }
        i = i + 1;
    }
    proof {
        assert(entries@.subrange(0, i as int) =~= entries@);
    }
    true
}

/// Plans the cleaning of one path: what is deleted, in which order, and the
/// bytes and files reported. `Err` exactly when the bytes do not fit in a
/// `u64` or the files in a `u32`.
pub fn plan_clean_path(root: &Option<Entry>) -> (r: Result<CleanPlan, Overflow>)
    ensures
        r is Ok <==> (clean_bytes(*root) <= u64::MAX && clean_files(*root) <= u32::MAX),
        r matches Ok(plan) ==> {
            &&& plan.freed == clean_bytes(*root)
            &&& plan.files == clean_files(*root)
            &&& removals_view(plan.removals@) == root_removals(*root)
        },
{
    let mut plan = CleanPlan { removals: Vec::new(), freed: 0, files: 0 };
    match root {
        None => {
            proof {
                assert(removals_view(plan.removals@) =~= seq![]);
            }
            Ok(plan)
        },
        Some(Entry::File { path, size, .. }) => {
            plan.freed = match size {
                Some(n) => *n,
                None => 0,
            };
            plan.files = 1;
            plan.removals.push(Removal { kind: RemovalKind::File, path: copy_bytes(path) });
            proof {
                assert(removals_view(plan.removals@) =~= seq![(RemovalKind::File, path@)]);
            }
            Ok(plan)
        },
        Some(Entry::Dir { children, .. }) => {
            proof {
                assert(removals_view(plan.removals@) =~= seq![]);
            }
            if plan_entries(children, &mut plan) {
                proof {
                    assert(removals_view(plan.removals@) =~= entries_removals(children@));
                }
                Ok(plan)
            } else {
                Err(Overflow)
            }
        },
    }
}


/// The paths of the file deletions among `v`, in order.
pub open spec fn removed_files(v: Seq<(RemovalKind, Seq<u8>)>) -> Seq<Seq<u8>>
    decreases v.len(),
{
    if v.len() == 0 {
        seq![]
    } else {
        removed_files(v.drop_last()) + if v.last().0 == RemovalKind::File {
            seq![v.last().1]
        } else {
            seq![]
        }
    }
}

proof fn lemma_removed_files_concat(a: Seq<(RemovalKind, Seq<u8>)>, b: Seq<(RemovalKind, Seq<u8>)>)
    ensures
        removed_files(a + b) == removed_files(a) + removed_files(b),
    decreases b.len(),
{
    if b.len() == 0 {
        assert(a + b =~= a);
        assert(removed_files(a) + removed_files(b) =~= removed_files(a));
    } else {
        assert((a + b).drop_last() =~= a + b.drop_last());
        lemma_removed_files_concat(a, b.drop_last());
    }
}

proof fn lemma_entry_removed_files(e: Entry)
    ensures
        removed_files(entry_removals(e)) == entry_files(e),
    decreases e,
{
    match e {
        Entry::File { path, .. } => {
            let v = seq![(RemovalKind::File, path@)];
            assert(v.drop_last() =~= seq![]);
            assert(removed_files(v.drop_last()) =~= Seq::<Seq<u8>>::empty());
            assert(v.last() == (RemovalKind::File, path@));
            assert(removed_files(v) =~= seq![path@]);
        },
        Entry::Dir { path, children, .. } => {
            lemma_entries_removed_files(children@);
            let d = seq![(RemovalKind::Dir, path@)];
            lemma_removed_files_concat(entries_removals(children@), d);
            assert(d.drop_last() =~= seq![]);
            assert(removed_files(d.drop_last()) =~= Seq::<Seq<u8>>::empty());
            assert(d.last() == (RemovalKind::Dir, path@));
            assert(removed_files(d) =~= seq![]);
            assert(removed_files(entries_removals(children@)) + removed_files(d)
                =~= removed_files(entries_removals(children@)));
        },
    }
}

proof fn lemma_entries_removed_files(s: Seq<Entry>)
    ensures
        removed_files(entries_removals(s)) == entries_files(s),
    decreases s,
{
    if s.len() > 0 {
        let pre = s.subrange(0, s.len() - 1);
        lemma_entries_removed_files(pre);
        lemma_entry_removed_files(s[s.len() - 1]);
        lemma_removed_files_concat(entries_removals(pre), entry_removals(s[s.len() - 1]));
    }
}

/// Cleaning a directory deletes, in the same order, exactly the files that
/// collecting its files lists, frees exactly the bytes its size counts, and
/// reports as many removed files as collecting lists. (For a path that is a
/// file this fails: its size counts nothing, while cleaning removes it.)
pub proof fn law_clean_matches_scan(root: Option<Entry>)
    requires
        !(root matches Some(Entry::File { .. })),
    ensures
        removed_files(root_removals(root)) == root_files(root),
        clean_bytes(root) == root_bytes(root),
        clean_files(root) == root_files(root).len(),
{
    match root {
        Some(Entry::Dir { children, .. }) => lemma_entries_removed_files(children@),
        _ => {},
    }
}


proof fn lemma_entries_bytes_concat(a: Seq<Entry>, b: Seq<Entry>)
    ensures
        entries_bytes(a + b) == entries_bytes(a) + entries_bytes(b),
    decreases b.len(),
{
    if b.len() == 0 {
        assert(a + b =~= a);
    } else {
        let ab = a + b;
        assert(ab.subrange(0, ab.len() - 1) =~= a + b.subrange(0, b.len() - 1));
        assert(ab[ab.len() - 1] == b[b.len() - 1]);
        lemma_entries_bytes_concat(a, b.subrange(0, b.len() - 1));
    }
}

proof fn lemma_entries_bytes_single(e: Entry)
    ensures
        entries_bytes(seq![e]) == entry_bytes(e),
{
    assert(seq![e].subrange(0, 0) =~= Seq::<Entry>::empty());
    assert(entries_bytes(Seq::<Entry>::empty()) == 0);
    assert(seq![e][0] == e);
}

/// `after` is `before` with the file `f` added: at position `route.last()`
/// of the directory reached by following the indices `route.drop_last()`
/// from `before` (each step into a directory, whose path and name stay).
pub open spec fn adds_file(before: Seq<Entry>, after: Seq<Entry>, f: Entry, route: Seq<int>) -> bool
    decreases route.len(),
{
    if route.len() == 0 {
        false
    } else if route.len() == 1 {
        0 <= route[0] <= before.len() && after == before.insert(route[0], f)
    } else {
        let i = route[0];
        &&& 0 <= i < before.len()
        &&& after.len() == before.len()
        &&& forall|j: int| 0 <= j < before.len() && j != i ==> #[trigger] after[j] == before[j]
        &&& match (before[i], after[i]) {
            (
                Entry::Dir { path: p1, name: n1, children: c1, .. },
                Entry::Dir { path: p2, name: n2, children: c2, .. },
            ) => p1@ == p2@ && n1@ == n2@ && adds_file(c1@, c2@, f, route.drop_first()),
            _ => false,
        }
    }
}

/// Adding a file anywhere below a directory makes its size grow by exactly
/// the file's length (0 when its metadata cannot be read): each file adds
/// its length, once.
pub proof fn law_added_file_adds_its_length(before: Seq<Entry>, after: Seq<Entry>, f: Entry, route: Seq<int>)
    requires
        f is File,
        adds_file(before, after, f, route),
    ensures
        entries_bytes(after) == entries_bytes(before) + entry_bytes(f),
    decreases route.len(),
{
    if route.len() == 1 {
        let k = route[0];
        assert(before =~= before.take(k) + before.skip(k));
        assert(after =~= before.take(k) + seq![f] + before.skip(k));
        lemma_entries_bytes_concat(before.take(k), before.skip(k));
        lemma_entries_bytes_concat(before.take(k) + seq![f], before.skip(k));
        lemma_entries_bytes_concat(before.take(k), seq![f]);
        lemma_entries_bytes_single(f);
    } else {
        let i = route[0];
        match (before[i], after[i]) {
            (Entry::Dir { children: c1, .. }, Entry::Dir { children: c2, .. }) => {
                law_added_file_adds_its_length(c1@, c2@, f, route.drop_first());
                assert(before =~= before.take(i) + seq![before[i]] + before.skip(i + 1));
                assert(after =~= before.take(i) + seq![after[i]] + before.skip(i + 1));
                lemma_entries_bytes_concat(before.take(i) + seq![before[i]], before.skip(i + 1));
                lemma_entries_bytes_concat(before.take(i), seq![before[i]]);
                lemma_entries_bytes_concat(before.take(i) + seq![after[i]], before.skip(i + 1));
                lemma_entries_bytes_concat(before.take(i), seq![after[i]]);
                lemma_entries_bytes_single(before[i]);
                lemma_entries_bytes_single(after[i]);
            },
            _ => {},
        }
    }
}

/// The file entries of an entry, in the order of a depth-first walk.
pub open spec fn entry_file_entries(e: Entry) -> Seq<Entry>
    decreases e,
{
    match e {
        Entry::File { .. } => seq![e],
        Entry::Dir { children, .. } => entries_file_entries(children@),
    }
}

/// The file entries of a sequence of sibling entries, in order.
pub open spec fn entries_file_entries(s: Seq<Entry>) -> Seq<Entry>
    decreases s,
{
    if s.len() == 0 {
        seq![]
    } else {
        entries_file_entries(s.subrange(0, s.len() - 1)) + entry_file_entries(s[s.len() - 1])
    }
}

/// The file entries below the path a snapshot was taken of.
pub open spec fn root_file_entries(root: Option<Entry>) -> Seq<Entry> {
    match root {
        Some(Entry::Dir { children, .. }) => entries_file_entries(children@),
        _ => seq![],
    }
}

/// The sum of the lengths of file entries (0 for an unreadable one).
pub open spec fn file_lengths(s: Seq<Entry>) -> nat
    decreases s.len(),
{
    if s.len() == 0 {
        0
    } else {
        file_lengths(s.drop_last()) + entry_bytes(s.last())
    }
}

proof fn lemma_file_lengths_concat(a: Seq<Entry>, b: Seq<Entry>)
    ensures
        file_lengths(a + b) == file_lengths(a) + file_lengths(b),
    decreases b.len(),
{
    if b.len() == 0 {
        assert(a + b =~= a);
    } else {
        assert((a + b).drop_last() =~= a + b.drop_last());
        lemma_file_lengths_concat(a, b.drop_last());
    }
}

proof fn lemma_file_entries_match(e: Entry)
    ensures
        entry_file_entries(e).map_values(|x: Entry| match x {
            Entry::File { path, .. } => path@,
            Entry::Dir { path, .. } => path@,
        }) == entry_files(e),
        file_lengths(entry_file_entries(e)) == entry_bytes(e),
        forall|k: int| 0 <= k < entry_file_entries(e).len() ==> #[trigger] entry_file_entries(e)[k] is File,
    decreases e,
{
    match e {
        Entry::File { path, .. } => {
            let s = seq![e];
            assert(s.drop_last() =~= Seq::<Entry>::empty());
            assert(file_lengths(Seq::<Entry>::empty()) == 0);
            assert(s.last() == e);
            assert(s.map_values(|x: Entry| match x {
                Entry::File { path, .. } => path@,
                Entry::Dir { path, .. } => path@,
            }) =~= seq![path@]);
        },
        Entry::Dir { children, .. } => lemma_entries_file_entries_match(children@),
    }
}

proof fn lemma_entries_file_entries_match(s: Seq<Entry>)
    ensures
        entries_file_entries(s).map_values(|x: Entry| match x {
            Entry::File { path, .. } => path@,
            Entry::Dir { path, .. } => path@,
        }) == entries_files(s),
        file_lengths(entries_file_entries(s)) == entries_bytes(s),
        forall|k: int| 0 <= k < entries_file_entries(s).len() ==> #[trigger] entries_file_entries(s)[k] is File,
    decreases s,
{
    if s.len() == 0 {
        assert(entries_file_entries(s).map_values(|x: Entry| match x {
            Entry::File { path, .. } => path@,
            Entry::Dir { path, .. } => path@,
        }) =~= Seq::<Seq<u8>>::empty());
    } else {
        let pre = s.subrange(0, s.len() - 1);
        let last = s[s.len() - 1];
        lemma_entries_file_entries_match(pre);
        lemma_file_entries_match(last);
        let a = entries_file_entries(pre);
        let b = entry_file_entries(last);
        lemma_file_lengths_concat(a, b);
        let f = |x: Entry| match x {
            Entry::File { path, .. } => path@,
            Entry::Dir { path, .. } => path@,
        };
        assert((a + b).map_values(f) =~= a.map_values(f) + b.map_values(f));
        assert forall|k: int| 0 <= k < (a + b).len() implies #[trigger] (a + b)[k] is File by {
            if k < a.len() {
                assert((a + b)[k] == a[k]);
            } else {
                assert((a + b)[k] == b[k - a.len()]);
            }
        }
    }
}

/// The paths that collecting lists are, in order, the paths of exactly the
/// file entries whose lengths the size of the directory adds up.
pub proof fn law_collected_files_are_summed(root: Option<Entry>)
    ensures
        root_file_entries(root).map_values(|x: Entry| match x {
            Entry::File { path, .. } => path@,
            Entry::Dir { path, .. } => path@,
        }) == root_files(root),
        file_lengths(root_file_entries(root)) == root_bytes(root),
        forall|k: int| 0 <= k < root_file_entries(root).len() ==> #[trigger] root_file_entries(root)[k] is File,
{
    match root {
        Some(Entry::Dir { children, .. }) => lemma_entries_file_entries_match(children@),
        _ => {
            assert(root_file_entries(root).map_values(|x: Entry| match x {
                Entry::File { path, .. } => path@,
                Entry::Dir { path, .. } => path@,
            }) =~= Seq::<Seq<u8>>::empty());
        },
    }
}


/// The paths of an entry and of everything below it: a directory's contents
/// first, then the directory itself.
pub open spec fn entry_all_paths(e: Entry) -> Seq<Seq<u8>>
    decreases e,
{
    match e {
        Entry::File { path, .. } => seq![path@],
        Entry::Dir { path, children, .. } => entries_all_paths(children@) + seq![path@],
    }
}

/// The paths of sibling entries and of everything below them, in order.
pub open spec fn entries_all_paths(s: Seq<Entry>) -> Seq<Seq<u8>>
    decreases s,
{
    if s.len() == 0 {
        seq![]
    } else {
        entries_all_paths(s.subrange(0, s.len() - 1)) + entry_all_paths(s[s.len() - 1])
    }
}

/// The paths that cleaning a path has to make disappear: the file itself,
/// or everything below a directory.
pub open spec fn root_all_paths(root: Option<Entry>) -> Seq<Seq<u8>> {
    match root {
        Some(Entry::File { path, .. }) => seq![path@],
        Some(Entry::Dir { children, .. }) => entries_all_paths(children@),
        None => seq![],
    }
}

/// The paths of a sequence of deletions.
pub open spec fn removal_paths(v: Seq<(RemovalKind, Seq<u8>)>) -> Seq<Seq<u8>> {
    v.map_values(|r: (RemovalKind, Seq<u8>)| r.1)
}

proof fn lemma_entry_removal_paths(e: Entry)
    ensures
        removal_paths(entry_removals(e)) == entry_all_paths(e),
    decreases e,
{
    match e {
        Entry::File { path, .. } => {
            assert(removal_paths(entry_removals(e)) =~= seq![path@]);
        },
        Entry::Dir { path, children, .. } => {
            lemma_entries_removal_paths(children@);
            assert(removal_paths(entry_removals(e)) =~= removal_paths(entries_removals(children@))
                + seq![path@]);
        },
    }
}

proof fn lemma_entries_removal_paths(s: Seq<Entry>)
    ensures
        removal_paths(entries_removals(s)) == entries_all_paths(s),
    decreases s,
{
    if s.len() == 0 {
        assert(removal_paths(entries_removals(s)) =~= Seq::<Seq<u8>>::empty());
    } else {
        let pre = s.subrange(0, s.len() - 1);
        lemma_entries_removal_paths(pre);
        lemma_entry_removal_paths(s[s.len() - 1]);
        assert(removal_paths(entries_removals(s)) =~= removal_paths(entries_removals(pre))
            + removal_paths(entry_removals(s[s.len() - 1])));
    }
}

/// Cleaning a path deletes, each once and in order (a directory's contents
/// before the directory), exactly the file itself or every file and
/// directory below the directory.
pub proof fn law_clean_deletes_everything(root: Option<Entry>)
    ensures
        removal_paths(root_removals(root)) == root_all_paths(root),
{
    match root {
        Some(Entry::File { path, .. }) => {
            assert(removal_paths(root_removals(root)) =~= seq![path@]);
        },
        Some(Entry::Dir { children, .. }) => lemma_entries_removal_paths(children@),
        None => {
            assert(removal_paths(root_removals(root)) =~= Seq::<Seq<u8>>::empty());
        },
    }
}

/// `after` is a snapshot of the same path once every planned deletion of
/// cleaning `before` has succeeded: a missing path stays missing, a file is
/// gone, a directory is still there (same path and name) with nothing in it.
pub open spec fn cleaned_snapshot(before: Option<Entry>, after: Option<Entry>) -> bool {
    match before {
        None => after is None,
        Some(Entry::File { .. }) => after is None,
        Some(Entry::Dir { path, name, .. }) => match after {
            Some(Entry::Dir { path: p2, name: n2, children: c2, .. }) => p2@ == path@ && n2@
                == name@ && c2@.len() == 0,
            _ => false,
        },
    }
}

/// Once a cleaning has carried out all its deletions, the path's size is 0,
/// it holds no files, and cleaning it again frees nothing, removes nothing
/// and plans no deletion.
pub proof fn law_nothing_left_after_clean(before: Option<Entry>, after: Option<Entry>)
    requires
        cleaned_snapshot(before, after),
    ensures
        root_bytes(after) == 0,
        root_files(after) == Seq::<Seq<u8>>::empty(),
        clean_bytes(after) == 0,
        clean_files(after) == 0,
        root_removals(after) == Seq::<(RemovalKind, Seq<u8>)>::empty(),
{
    match after {
        Some(Entry::Dir { children, .. }) => {
            assert(children@ =~= Seq::<Entry>::empty());
            assert(entries_files(children@) =~= Seq::<Seq<u8>>::empty());
            assert(entries_removals(children@) =~= Seq::<(RemovalKind, Seq<u8>)>::empty());
        },
        _ => {},
    }
}

} // verus!
