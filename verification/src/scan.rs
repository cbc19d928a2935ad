use vstd::prelude::*;

use crate::logs::law_nothing_left_after_log_clean;
use crate::logs::log_cleaned_snapshot;
use crate::logs::root_rotated_bytes;
use crate::logs::rotated_size;
use crate::text::copy_strings;
use crate::text::same_text;
use crate::text::strings_view;
use crate::tree::dir_size;
use crate::tree::cleaned_snapshot;
use crate::tree::fit_u64;
use crate::tree::law_nothing_left_after_clean;
use crate::tree::root_bytes;
use crate::tree::Entry;
use crate::tree::Overflow;

verus! {

/// A kind of junk the cleaner looks for, and the directories it lives in.
pub struct Category {
    pub name: String,
    pub description: String,
    pub dirs: Vec<String>,
}

/// A category as name, description and directories.
pub open spec fn category_view(c: Category) -> (Seq<char>, Seq<char>, Seq<Seq<char>>) {
    (c.name@, c.description@, strings_view(c.dirs@))
}

/// The categories as names, descriptions and directories.
pub open spec fn categories_view(v: Seq<Category>) -> Seq<(Seq<char>, Seq<char>, Seq<Seq<char>>)> {
    v.map_values(|c: Category| category_view(c))
}

/// The name of the category whose files are picked by name in `/var/log`.
pub open spec fn rotated_logs_name() -> Seq<char> {
    "Old Logs (/var/log)"@
}

/// The categories the cleaner scans, in order, for the home directory
/// `home`.
pub open spec fn category_table(home: Seq<char>) -> Seq<(Seq<char>, Seq<char>, Seq<Seq<char>>)> {
    seq![
        ("Package Cache (APT)"@, "Cached .deb packages from apt"@, seq!["/var/cache/apt/archives"@]),
        ("Package Cache (pacman)"@, "Cached packages from pacman"@, seq!["/var/cache/pacman/pkg"@]),
        ("Package Cache (dnf/yum)"@, "Cached RPM packages"@, seq!["/var/cache/dnf"@, "/var/cache/yum"@]),
        ("Thumbnail Cache"@, "Auto-generated image thumbnails"@, seq![home + "/.cache/thumbnails"@]),
        ("Browser Cache (Chromium)"@, "Chromium browser cached data"@, seq![home + "/.cache/chromium"@]),
        ("Browser Cache (Firefox)"@, "Firefox browser cached data"@, seq![home + "/.cache/mozilla/firefox"@]),
        ("Trash"@, "Files in your trash bin"@, seq![
            home + "/.local/share/Trash/files"@,
            "/root/.local/share/Trash/files"@,
        ]),
        (rotated_logs_name(), "Rotated & compressed log files (*.gz, *.old, *.1)"@, seq!["/var/log"@]),
        ("Temp Files (/tmp)"@, "Temporary system files"@, seq!["/tmp"@]),
        ("User Cache (~/.cache)"@, "General application cache"@, seq![home + "/.cache"@]),
        ("Snap Cache"@, "Snap package cache"@, seq![home + "/.cache/snapd"@]),
        ("Flatpak Cache"@, "Flatpak app cache"@, seq![home + "/.cache/flatpak"@]),
    ]
}

/// The home directory used: the value of `HOME`, or `/root` when it is not
/// set.
pub fn home_or_root(home: Option<&str>) -> (r: String)
    ensures
        r@ == (match home {
            Some(h) => h@,
            None => "/root"@,
        }),
{
    match home {
        Some(h) => h.to_owned(),
        None => "/root".to_owned(),
    }
}

fn under(home: &str, tail: &str) -> (r: String)
    ensures
        r@ == home@ + tail@,
{
    let mut r = home.to_owned();
    r.append(tail);
    r
}

fn category(name: &str, description: &str, dirs: Vec<String>) -> (c: Category)
    ensures
        category_view(c) == (name@, description@, strings_view(dirs@)),
{
    Category { name: name.to_owned(), description: description.to_owned(), dirs }
}

fn one_dir(d: String) -> (v: Vec<String>)
    ensures
        strings_view(v@) == seq![d@],
{
    let mut v = Vec::new();
    v.push(d);
    proof {
        assert(strings_view(v@) =~= seq![d@]);
    }
    v
}

fn two_dirs(a: String, b: String) -> (v: Vec<String>)
    ensures
        strings_view(v@) == seq![a@, b@],
{
    let mut v = Vec::new();
    v.push(a);
    v.push(b);
    proof {
        assert(strings_view(v@) =~= seq![a@, b@]);
    }
    v
}

/// The categories the cleaner scans, for the home directory `home`.
pub fn scan_categories(home: &str) -> (cats: Vec<Category>)
    ensures
        categories_view(cats@) == category_table(home@),
{
    let mut cats: Vec<Category> = Vec::new();
    cats.push(category("Package Cache (APT)", "Cached .deb packages from apt", one_dir("/var/cache/apt/archives".to_owned())));
    cats.push(category("Package Cache (pacman)", "Cached packages from pacman", one_dir("/var/cache/pacman/pkg".to_owned())));
    cats.push(category("Package Cache (dnf/yum)", "Cached RPM packages", two_dirs("/var/cache/dnf".to_owned(), "/var/cache/yum".to_owned())));
    cats.push(category("Thumbnail Cache", "Auto-generated image thumbnails", one_dir(under(home, "/.cache/thumbnails"))));
    cats.push(category("Browser Cache (Chromium)", "Chromium browser cached data", one_dir(under(home, "/.cache/chromium"))));
    cats.push(category("Browser Cache (Firefox)", "Firefox browser cached data", one_dir(under(home, "/.cache/mozilla/firefox"))));
    cats.push(category("Trash", "Files in your trash bin", two_dirs(under(home, "/.local/share/Trash/files"), "/root/.local/share/Trash/files".to_owned())));
    cats.push(category("Old Logs (/var/log)", "Rotated & compressed log files (*.gz, *.old, *.1)", one_dir("/var/log".to_owned())));
    cats.push(category("Temp Files (/tmp)", "Temporary system files", one_dir("/tmp".to_owned())));
    cats.push(category("User Cache (~/.cache)", "General application cache", one_dir(under(home, "/.cache"))));
    cats.push(category("Snap Cache", "Snap package cache", one_dir(under(home, "/.cache/snapd"))));
    cats.push(category("Flatpak Cache", "Flatpak app cache", one_dir(under(home, "/.cache/flatpak"))));
    proof {
        assert(categories_view(cats@) =~= category_table(home@));
    }
    cats
}


/// A category in which the scan found junk: its name, description, the
/// bytes found and the directories it covers.
pub struct ScanResult {
    pub name: String,
    pub description: String,
    pub size: u64,
    pub paths: Vec<String>,
}

/// A scan result as name, description, size and directories.
pub open spec fn result_view(r: ScanResult) -> (Seq<char>, Seq<char>, u64, Seq<Seq<char>>) {
    (r.name@, r.description@, r.size, strings_view(r.paths@))
}

/// The scan results as names, descriptions, sizes and directories.
pub open spec fn results_view(v: Seq<ScanResult>) -> Seq<(Seq<char>, Seq<char>, u64, Seq<Seq<char>>)> {
    v.map_values(|r: ScanResult| result_view(r))
}

/// The snapshot taken of the `j`-th directory, a missing one standing for a
/// path that does not exist.
pub open spec fn snapshot_at(roots: Seq<Option<Entry>>, j: int) -> Option<Entry> {
    if 0 <= j < roots.len() {
        roots[j]
    } else {
        None
    }
}

/// Bytes a category counts in one directory: the rotated logs directly in
/// it for the log category, everything below it otherwise.
pub open spec fn dir_bytes(rotated: bool, root: Option<Entry>) -> nat {
    if rotated {
        root_rotated_bytes(root)
    } else {
        root_bytes(root)
    }
}

/// Bytes a category counts in its first `n` directories.
pub open spec fn category_bytes(rotated: bool, roots: Seq<Option<Entry>>, n: nat) -> nat
    decreases n,
{
    if n == 0 {
        0
    } else {
        category_bytes(rotated, roots, (n - 1) as nat) + dir_bytes(rotated, snapshot_at(roots, n - 1))
    }
}

proof fn lemma_category_bytes_mono(rotated: bool, roots: Seq<Option<Entry>>, k: nat, n: nat)
    requires
        k <= n,
    ensures
        category_bytes(rotated, roots, k) <= category_bytes(rotated, roots, n),
    decreases n - k,
{
    if k < n {
        lemma_category_bytes_mono(rotated, roots, k, (n - 1) as nat);
    }
}

/// Bytes the scan finds for a category, given a snapshot of each of its
/// directories.
pub open spec fn found_bytes(cat: (Seq<char>, Seq<char>, Seq<Seq<char>>), roots: Seq<Option<Entry>>) -> nat {
    category_bytes(cat.0 == rotated_logs_name(), roots, cat.2.len())
}

/// What the scan of one category gives: `None` when the bytes overflow, no
/// result when nothing was found, otherwise the category with the bytes
/// found.
pub open spec fn category_outcome(
    cat: (Seq<char>, Seq<char>, Seq<Seq<char>>),
    roots: Seq<Option<Entry>>,
) -> Option<Option<(Seq<char>, Seq<char>, u64, Seq<Seq<char>>)>> {
    let total = found_bytes(cat, roots);
    if total > u64::MAX {
        None
    } else if total > 0 {
        Some(Some((cat.0, cat.1, total as u64, cat.2)))
    } else {
        Some(None)
    }
}

/// Scans one category, given a snapshot of each of its directories (in the
/// order of `cat.dirs`; a missing snapshot stands for a path that does not
/// exist). The log category counts the rotated logs directly in its
/// directories, any other everything below them. A result is given only
/// when some bytes were found; `Err` when the bytes overflow a `u64`.
pub fn scan_category(cat: &Category, roots: &Vec<Option<Entry>>) -> (r: Result<Option<ScanResult>, Overflow>)
    ensures
        r is Err <==> category_outcome(category_view(*cat), roots@) is None,
        r matches Ok(o) ==> Some(match o {
            Some(res) => Some(result_view(res)),
            None => None,
        }) == category_outcome(category_view(*cat), roots@),
{
    let rotated = same_text(cat.name.as_str(), "Old Logs (/var/log)");
    let ghost cv = category_view(*cat);
    let mut total: u64 = 0;
    let mut j: usize = 0;
    while j < cat.dirs.len()
        invariant
            j <= cat.dirs.len(),
            cv == category_view(*cat),
            rotated == (cv.0 == rotated_logs_name()),
            total == category_bytes(rotated, roots@, j as nat),
        decreases cat.dirs.len() - j,
    {
        proof {
            lemma_category_bytes_mono(rotated, roots@, (j + 1) as nat, cat.dirs.len() as nat);
        }
        let add = if j < roots.len() {
            if rotated {
                rotated_size(&roots[j])
            } else {
                dir_size(&roots[j])
            }
        } else {
            Some(0)
        };
        let add = match add {
            Some(n) => n,
            None => return Err(Overflow),
        };
        match total.checked_add(add) {
            Some(t) => total = t,
            None => return Err(Overflow),
        }
        j = j + 1;
    }
    if total > 0 {
        Ok(
            Some(
                ScanResult {
                    name: cat.name.clone(),
                    description: cat.description.clone(),
                    size: total,
                    paths: copy_strings(&cat.dirs),
                },
            ),
        )
    } else {
        Ok(None)
    }
}


/// The snapshots of each category's directories.
pub open spec fn snapshots_view(v: Seq<Vec<Option<Entry>>>) -> Seq<Seq<Option<Entry>>> {
    v.map_values(|x: Vec<Option<Entry>>| x@)
}

/// The snapshots for the `i`-th category; none when they are missing.
pub open spec fn snapshots_at(snaps: Seq<Seq<Option<Entry>>>, i: int) -> Seq<Option<Entry>> {
    if 0 <= i < snaps.len() {
        snaps[i]
    } else {
        seq![]
    }
}

/// The results of scanning the first `n` categories, in order, leaving out
/// those where nothing was found; `None` when the bytes of one of them
/// overflow.
pub open spec fn scan_outcome(
    cats: Seq<(Seq<char>, Seq<char>, Seq<Seq<char>>)>,
    snaps: Seq<Seq<Option<Entry>>>,
    n: nat,
) -> Option<Seq<(Seq<char>, Seq<char>, u64, Seq<Seq<char>>)>>
    decreases n,
{
    if n == 0 {
        Some(seq![])
    } else {
        match scan_outcome(cats, snaps, (n - 1) as nat) {
            None => None,
            Some(prev) => match category_outcome(cats[n - 1], snapshots_at(snaps, n - 1)) {
                None => None,
                Some(None) => Some(prev),
                Some(Some(found)) => Some(prev.push(found)),
            },
        }
    }
}

proof fn lemma_scan_outcome_stays_none(
    cats: Seq<(Seq<char>, Seq<char>, Seq<Seq<char>>)>,
    snaps: Seq<Seq<Option<Entry>>>,
    k: nat,
    n: nat,
)
    requires
        k <= n,
        scan_outcome(cats, snaps, k) is None,
    ensures
        scan_outcome(cats, snaps, n) is None,
    decreases n - k,
{
    if k < n {
        lemma_scan_outcome_stays_none(cats, snaps, k, (n - 1) as nat);
    }
}

/// Scans every category for the home directory `home`, given for each
/// category (in the order of [`category_table`]) a snapshot of each of its
/// directories. The results keep the order of the categories and leave out
/// those where nothing was found; `Err` when the bytes of a category
/// overflow a `u64`.
pub fn scan_targets(home: &str, snapshots: &Vec<Vec<Option<Entry>>>) -> (r: Result<Vec<ScanResult>, Overflow>)
    ensures
        r is Err <==> scan_outcome(
            category_table(home@),
            snapshots_view(snapshots@),
            category_table(home@).len(),
        ) is None,
        r matches Ok(v) ==> Some(results_view(v@)) == scan_outcome(
            category_table(home@),
            snapshots_view(snapshots@),
            category_table(home@).len(),
        ),
{
    let cats = scan_categories(home);
    let ghost table = category_table(home@);
    let ghost snaps = snapshots_view(snapshots@);
    let empty: Vec<Option<Entry>> = Vec::new();
    let mut out: Vec<ScanResult> = Vec::new();
    let mut i: usize = 0;
    proof {
        assert(results_view(out@) =~= seq![]);
    }
    while i < cats.len()
        invariant
            i <= cats.len(),
            categories_view(cats@) == table,
            table == category_table(home@),
            snaps == snapshots_view(snapshots@),
            empty@ == Seq::<Option<Entry>>::empty(),
            scan_outcome(table, snaps, i as nat) == Some(results_view(out@)),
        decreases cats.len() - i,
    {
        let roots = if i < snapshots.len() {
            &snapshots[i]
        } else {
            &empty
        };
        proof {
            assert(roots@ == snapshots_at(snaps, i as int));
            assert(category_view(cats@[i as int]) == table[i as int]);
        }
        match scan_category(&cats[i], roots) {
            Err(e) => {
                proof {
                    lemma_scan_outcome_stays_none(table, snaps, (i + 1) as nat, table.len());
                }
                return Err(e);
            },
            Ok(None) => {},
            Ok(Some(found)) => {
                let ghost before = out@;
                out.push(found);
                proof {
                    assert(results_view(out@) =~= results_view(before).push(result_view(found)));
                }
            },
        }
        i = i + 1;
    }
    Ok(out)
}


/// Every result of a scan has found some bytes and belongs to one of the
/// categories, under its name, description and directories; results never
/// outnumber the categories.
pub proof fn law_scan_results_are_found_categories(
    cats: Seq<(Seq<char>, Seq<char>, Seq<Seq<char>>)>,
    snaps: Seq<Seq<Option<Entry>>>,
    n: nat,
)
    requires
        n <= cats.len(),
    ensures
        scan_outcome(cats, snaps, n) matches Some(v) ==> {
            &&& v.len() <= n
            &&& forall|i: int|
                0 <= i < v.len() ==> (#[trigger] v[i]).2 > 0 && exists|k: int|
                    0 <= k < n && #[trigger] cats[k] == (v[i].0, v[i].1, v[i].3)
        },
    decreases n,
{
    if n > 0 {
        law_scan_results_are_found_categories(cats, snaps, (n - 1) as nat);
        match scan_outcome(cats, snaps, (n - 1) as nat) {
            None => {},
            Some(prev) => {
                match category_outcome(cats[n - 1], snapshots_at(snaps, n - 1)) {
                    Some(Some(found)) => {
                        let v = prev.push(found);
                        assert forall|i: int| 0 <= i < v.len() implies (#[trigger] v[i]).2 > 0
                            && exists|k: int|
                            0 <= k < n && #[trigger] cats[k] == (v[i].0, v[i].1, v[i].3) by {
                            if i < prev.len() {
                                assert(v[i] == prev[i]);
                                let k = choose|k: int|
                                    0 <= k < n - 1 && #[trigger] cats[k] == (
                                        prev[i].0,
                                        prev[i].1,
                                        prev[i].3,
                                    );
                                assert(cats[k] == (v[i].0, v[i].1, v[i].3));
                            } else {
                                assert(cats[n - 1] == (v[i].0, v[i].1, v[i].3));
                            }
                        }
                    },
                    _ => {},
                }
            },
        }
    }
}


/// `after` is a snapshot of a category's directory once cleaning it has
/// carried out all its deletions: the log rule for the log category, the
/// whole tree otherwise.
pub open spec fn dir_cleaned(rotated: bool, before: Option<Entry>, after: Option<Entry>) -> bool {
    if rotated {
        log_cleaned_snapshot(before, after)
    } else {
        cleaned_snapshot(before, after)
    }
}

/// Every directory of the category, snapshot in `after`, has been cleaned
/// from its snapshot in `before`, or is gone altogether (as a directory
/// inside another cleaned one is).
pub open spec fn category_cleaned(
    cat: (Seq<char>, Seq<char>, Seq<Seq<char>>),
    before: Seq<Option<Entry>>,
    after: Seq<Option<Entry>>,
) -> bool {
    forall|j: int|
        0 <= j < cat.2.len() ==> dir_cleaned(
            cat.0 == rotated_logs_name(),
            snapshot_at(before, j),
            #[trigger] snapshot_at(after, j),
        ) || snapshot_at(after, j) is None
}

proof fn lemma_cleaned_category_empty(
    cat: (Seq<char>, Seq<char>, Seq<Seq<char>>),
    before: Seq<Option<Entry>>,
    after: Seq<Option<Entry>>,
    m: nat,
)
    requires
        category_cleaned(cat, before, after),
        m <= cat.2.len(),
    ensures
        category_bytes(cat.0 == rotated_logs_name(), after, m) == 0,
    decreases m,
{
    if m > 0 {
        lemma_cleaned_category_empty(cat, before, after, (m - 1) as nat);
        let j = m - 1;
        if snapshot_at(after, j) is None {
        } else if cat.0 == rotated_logs_name() {
            law_nothing_left_after_log_clean(snapshot_at(before, j), snapshot_at(after, j));
        } else {
            law_nothing_left_after_clean(snapshot_at(before, j), snapshot_at(after, j));
        }
    }
}

/// After cleaning every category the scan reported (each of its directories
/// cleaned with all deletions carried out, or removed by the cleaning of
/// another category), while the categories it did not
/// report (where it found nothing) stay as they were, a new scan reports
/// nothing.
pub proof fn law_rescan_after_clean_finds_nothing(
    cats: Seq<(Seq<char>, Seq<char>, Seq<Seq<char>>)>,
    before: Seq<Seq<Option<Entry>>>,
    after: Seq<Seq<Option<Entry>>>,
    n: nat,
)
    requires
        n <= cats.len(),
        forall|i: int|
            0 <= i < n ==> category_cleaned(
                #[trigger] cats[i],
                snapshots_at(before, i),
                snapshots_at(after, i),
            ) || (found_bytes(cats[i], snapshots_at(before, i)) == 0 && snapshots_at(after, i)
                == snapshots_at(before, i)),
    ensures
        scan_outcome(cats, after, n) == Some(Seq::<(Seq<char>, Seq<char>, u64, Seq<Seq<char>>)>::empty()),
    decreases n,
{
    if n > 0 {
        law_rescan_after_clean_finds_nothing(cats, before, after, (n - 1) as nat);
        let i = n - 1;
        if category_cleaned(cats[i], snapshots_at(before, i), snapshots_at(after, i)) {
            lemma_cleaned_category_empty(
                cats[i],
                snapshots_at(before, i),
                snapshots_at(after, i),
                cats[i].2.len(),
            );
        }
        assert(found_bytes(cats[i], snapshots_at(after, i)) == 0);
    }
}


/// Every category in which the scan found bytes is reported, under its own
/// name, description and directories and with exactly the bytes found in
/// its directories; the first category is no exception.
pub proof fn law_scan_reports_every_found_category(
    cats: Seq<(Seq<char>, Seq<char>, Seq<Seq<char>>)>,
    snaps: Seq<Seq<Option<Entry>>>,
    n: nat,
)
    requires
        n <= cats.len(),
    ensures
        scan_outcome(cats, snaps, n) matches Some(v) ==> forall|k: int|
            0 <= k < n && found_bytes(cats[k], snapshots_at(snaps, k)) > 0 ==> exists|i: int|
                0 <= i < v.len() && #[trigger] v[i] == (
                    cats[k].0,
                    cats[k].1,
                    found_bytes(cats[k], snapshots_at(snaps, k)) as u64,
                    cats[k].2,
                ),
    decreases n,
{
    if n > 0 {
        law_scan_reports_every_found_category(cats, snaps, (n - 1) as nat);
        match scan_outcome(cats, snaps, (n - 1) as nat) {
            None => {},
            Some(prev) => {
                match scan_outcome(cats, snaps, n) {
                    None => {},
                    Some(v) => {
                        assert(v.len() >= prev.len());
                        assert forall|i: int| 0 <= i < prev.len() implies v[i] == prev[i] by {
                            match category_outcome(cats[n - 1], snapshots_at(snaps, n - 1)) {
                                Some(Some(found)) => assert(v == prev.push(found)),
                                _ => {},
                            }
                        }
                        assert forall|k: int|
                            0 <= k < n && found_bytes(cats[k], snapshots_at(snaps, k))
                                > 0 implies exists|i: int|
                            0 <= i < v.len() && #[trigger] v[i] == (
                                cats[k].0,
                                cats[k].1,
                                found_bytes(cats[k], snapshots_at(snaps, k)) as u64,
                                cats[k].2,
                            ) by {
                            if k < n - 1 {
                                let i = choose|i: int|
                                    0 <= i < prev.len() && #[trigger] prev[i] == (
                                        cats[k].0,
                                        cats[k].1,
                                        found_bytes(cats[k], snapshots_at(snaps, k)) as u64,
                                        cats[k].2,
                                    );
                                assert(v[i] == prev[i]);
                            } else {
                                assert(v[v.len() - 1] == (
                                    cats[k].0,
                                    cats[k].1,
                                    found_bytes(cats[k], snapshots_at(snaps, k)) as u64,
                                    cats[k].2,
                                ));
                            }
                        }
                    },
                }
            },
        }
    }
}

/// A category's bytes are the sum of what each of its directories holds in
/// its own snapshot: replacing the snapshot of one directory changes the
/// total by exactly the difference of the two snapshots' bytes, and the
/// snapshots beyond the first `n` play no part.
pub proof fn law_category_bytes_sum_of_dirs(
    rotated: bool,
    roots: Seq<Option<Entry>>,
    n: nat,
    j: int,
    other: Option<Entry>,
)
    requires
        0 <= j < roots.len(),
    ensures
        j < n ==> category_bytes(rotated, roots.update(j, other), n) + dir_bytes(rotated, roots[j])
            == category_bytes(rotated, roots, n) + dir_bytes(rotated, other),
        j >= n ==> category_bytes(rotated, roots.update(j, other), n) == category_bytes(
            rotated,
            roots,
            n,
        ),
    decreases n,
{
    if n > 0 {
        law_category_bytes_sum_of_dirs(rotated, roots, (n - 1) as nat, j, other);
        let m = n - 1;
        if m == j {
            assert(snapshot_at(roots.update(j, other), m) == other);
        } else {
            assert(snapshot_at(roots.update(j, other), m) == snapshot_at(roots, m));
        }
    }
}

/// A category with no snapshots holds nothing, and one directory's snapshot
/// alone, all others missing, gives that directory's own bytes.
pub proof fn law_category_bytes_one_dir(rotated: bool, n: nat, j: int, d: Option<Entry>)
    requires
        0 <= j < n,
    ensures
        category_bytes(rotated, Seq::new(n, |i: int| None::<Entry>), n) == 0,
        category_bytes(rotated, Seq::new(n, |i: int| None::<Entry>).update(j, d), n) == dir_bytes(
            rotated,
            d,
        ),
{
    let empty = Seq::new(n, |i: int| None::<Entry>);
    lemma_no_snapshots(rotated, empty, n);
    law_category_bytes_sum_of_dirs(rotated, empty, n, j, d);
    assert(empty[j] == None::<Entry>);
    assert(dir_bytes(rotated, None) == 0);
}

proof fn lemma_no_snapshots(rotated: bool, roots: Seq<Option<Entry>>, n: nat)
    requires
        forall|i: int| 0 <= i < roots.len() ==> #[trigger] roots[i] is None,
    ensures
        category_bytes(rotated, roots, n) == 0,
    decreases n,
{
    if n > 0 {
        lemma_no_snapshots(rotated, roots, (n - 1) as nat);
    }
}

/// The directories each category covers, for the home directory `home`:
/// the package caches, `/var/log` and `/tmp` outside it; the thumbnail,
/// Chromium, Firefox, snap and flatpak caches and the general cache under
/// `home/.cache`; the trash of `home` and of root.
pub proof fn law_category_dirs(home: Seq<char>)
    ensures
        category_table(home).len() == 12,
        category_table(home)[0].2.len() == 1,
        category_table(home)[0].2[0] == "/var/cache/apt/archives"@,
        category_table(home)[1].2.len() == 1,
        category_table(home)[1].2[0] == "/var/cache/pacman/pkg"@,
        category_table(home)[2].2.len() == 2,
        category_table(home)[2].2[0] == "/var/cache/dnf"@,
        category_table(home)[2].2[1] == "/var/cache/yum"@,
        category_table(home)[3].2.len() == 1,
        category_table(home)[3].2[0] == home + "/.cache/thumbnails"@,
        category_table(home)[4].2.len() == 1,
        category_table(home)[4].2[0] == home + "/.cache/chromium"@,
        category_table(home)[5].2.len() == 1,
        category_table(home)[5].2[0] == home + "/.cache/mozilla/firefox"@,
        category_table(home)[6].2.len() == 2,
        category_table(home)[6].2[0] == home + "/.local/share/Trash/files"@,
        category_table(home)[6].2[1] == "/root/.local/share/Trash/files"@,
        category_table(home)[7].2.len() == 1,
        category_table(home)[7].2[0] == "/var/log"@,
        category_table(home)[8].2.len() == 1,
        category_table(home)[8].2[0] == "/tmp"@,
        category_table(home)[9].2.len() == 1,
        category_table(home)[9].2[0] == home + "/.cache"@,
        category_table(home)[10].2.len() == 1,
        category_table(home)[10].2[0] == home + "/.cache/snapd"@,
        category_table(home)[11].2.len() == 1,
        category_table(home)[11].2[0] == home + "/.cache/flatpak"@,
        forall|k: int|
            3 <= k <= 11 && k != 6 && k != 7 && k != 8 ==> (#[trigger] category_table(home)[k]).2.len()
                == 1 && category_table(home)[k].2[0].take(home.len() as int + 7) == home + "/.cache"@,
{
    reveal_strlit("/.cache/thumbnails");
    reveal_strlit("/.cache/chromium");
    reveal_strlit("/.cache/mozilla/firefox");
    reveal_strlit("/.cache/snapd");
    reveal_strlit("/.cache/flatpak");
    reveal_strlit("/.cache");
    let t = category_table(home);
    assert((home + "/.cache/thumbnails"@).take(home.len() as int + 7) =~= home + "/.cache"@);
    assert((home + "/.cache/chromium"@).take(home.len() as int + 7) =~= home + "/.cache"@);
    assert((home + "/.cache/mozilla/firefox"@).take(home.len() as int + 7) =~= home + "/.cache"@);
    assert((home + "/.cache"@).take(home.len() as int + 7) =~= home + "/.cache"@);
    assert((home + "/.cache/snapd"@).take(home.len() as int + 7) =~= home + "/.cache"@);
    assert((home + "/.cache/flatpak"@).take(home.len() as int + 7) =~= home + "/.cache"@);
}


/// The name and description of each category, in scanning order.
pub proof fn law_category_names(home: Seq<char>)
    ensures
        category_table(home)[0].0 == "Package Cache (APT)"@,
        category_table(home)[0].1 == "Cached .deb packages from apt"@,
        category_table(home)[1].0 == "Package Cache (pacman)"@,
        category_table(home)[1].1 == "Cached packages from pacman"@,
        category_table(home)[2].0 == "Package Cache (dnf/yum)"@,
        category_table(home)[2].1 == "Cached RPM packages"@,
        category_table(home)[3].0 == "Thumbnail Cache"@,
        category_table(home)[3].1 == "Auto-generated image thumbnails"@,
        category_table(home)[4].0 == "Browser Cache (Chromium)"@,
        category_table(home)[4].1 == "Chromium browser cached data"@,
        category_table(home)[5].0 == "Browser Cache (Firefox)"@,
        category_table(home)[5].1 == "Firefox browser cached data"@,
        category_table(home)[6].0 == "Trash"@,
        category_table(home)[6].1 == "Files in your trash bin"@,
        category_table(home)[7].0 == "Old Logs (/var/log)"@,
        category_table(home)[7].1 == "Rotated & compressed log files (*.gz, *.old, *.1)"@,
        category_table(home)[8].0 == "Temp Files (/tmp)"@,
        category_table(home)[8].1 == "Temporary system files"@,
        category_table(home)[9].0 == "User Cache (~/.cache)"@,
        category_table(home)[9].1 == "General application cache"@,
        category_table(home)[10].0 == "Snap Cache"@,
        category_table(home)[10].1 == "Snap package cache"@,
        category_table(home)[11].0 == "Flatpak Cache"@,
        category_table(home)[11].1 == "Flatpak app cache"@,
        forall|k: int|
            0 <= k < 12 && k != 7 ==> (#[trigger] category_table(home)[k]).0 != "Old Logs (/var/log)"@,
{
    reveal_strlit("Old Logs (/var/log)");
    reveal_strlit("Package Cache (APT)");
    reveal_strlit("Package Cache (pacman)");
    reveal_strlit("Package Cache (dnf/yum)");
    reveal_strlit("Thumbnail Cache");
    reveal_strlit("Browser Cache (Chromium)");
    reveal_strlit("Browser Cache (Firefox)");
    reveal_strlit("Trash");
    reveal_strlit("Temp Files (/tmp)");
    reveal_strlit("User Cache (~/.cache)");
    reveal_strlit("Snap Cache");
    reveal_strlit("Flatpak Cache");
    let t = category_table(home);
    assert forall|k: int| 0 <= k < 12 && k != 7 implies (#[trigger] t[k]).0 != "Old Logs (/var/log)"@ by {
        if t[k].0.len() == "Old Logs (/var/log)"@.len() {
            assert(t[k].0[0] != "Old Logs (/var/log)"@[0] || t[k].0[1] != "Old Logs (/var/log)"@[1]);
        }
    }
}

} // verus!
