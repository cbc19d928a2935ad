use clearlinux::clean::clean_target;
use clearlinux::clean::CleanTally;
use clearlinux::clean::CleanTarget;
use clearlinux::logs::is_rotated_log_name;
use clearlinux::logs::plan_clean_rotated;
use clearlinux::logs::rotated_size;
use clearlinux::report::label_with;
use clearlinux::report::pick_results;
use clearlinux::report::scan_table;
use clearlinux::report::selection_labels;
use clearlinux::report::selection_summary;
use clearlinux::report::size_tier;
use clearlinux::report::total_size;
use clearlinux::report::SizeTier;
use clearlinux::scan::home_or_root;
use clearlinux::scan::scan_categories;
use clearlinux::scan::scan_category;
use clearlinux::scan::scan_targets;
use clearlinux::scan::Category;
use clearlinux::scan::ScanResult;
use clearlinux::tree::collect_files;
use clearlinux::tree::dir_size;
use clearlinux::tree::plan_clean_path;
use clearlinux::tree::CleanPlan;
use clearlinux::tree::Entry;
use clearlinux::tree::Overflow;
use clearlinux::tree::RemovalKind;

fn file(path: &str, size: Option<u64>) -> Entry {
    let name = path.rsplit('/').next().unwrap();
    Entry::File { path: path.as_bytes().to_vec(), name: name.as_bytes().to_vec(), size }
}

fn dir(path: &str, size: Option<u64>, children: Vec<Entry>) -> Entry {
    let name = path.rsplit('/').next().unwrap();
    Entry::Dir { path: path.as_bytes().to_vec(), name: name.as_bytes().to_vec(), size, children }
}

/// /c holding a (10 bytes), sub/ (b: 20, unreadable c) and d (5 bytes).
fn sample() -> Option<Entry> {
    Some(dir(
        "/c",
        Some(4096),
        vec![
            file("/c/a", Some(10)),
            dir("/c/sub", Some(4096), vec![file("/c/sub/b", Some(20)), file("/c/sub/c", None)]),
            file("/c/d", Some(5)),
        ],
    ))
}

fn texts(v: &[Vec<u8>]) -> Vec<String> {
    v.iter().map(|p| String::from_utf8(p.clone()).unwrap()).collect()
}

fn removals(plan: &CleanPlan) -> Vec<(RemovalKind, String)> {
    plan.removals.iter().map(|r| (r.kind, String::from_utf8(r.path.clone()).unwrap())).collect()
}

#[test]
fn dir_size_sums_files_below() {
    assert_eq!(dir_size(&sample()), Some(35));
    assert_eq!(dir_size(&None), Some(0));
    assert_eq!(dir_size(&Some(file("/f", Some(99)))), Some(0));
    assert_eq!(dir_size(&Some(dir("/e", Some(4096), vec![]))), Some(0));
}

#[test]
fn dir_size_overflow() {
    let big = Some(dir("/b", None, vec![file("/b/x", Some(u64::MAX)), file("/b/y", Some(1))]));
    assert_eq!(dir_size(&big), None);
    let fits = Some(dir("/b", None, vec![file("/b/x", Some(u64::MAX - 1)), file("/b/y", Some(1))]));
    assert_eq!(dir_size(&fits), Some(u64::MAX));
}

#[test]
fn collect_files_depth_first() {
    let mut files = vec![b"/earlier".to_vec()];
    collect_files(&sample(), &mut files);
    assert_eq!(texts(&files), vec!["/earlier", "/c/a", "/c/sub/b", "/c/sub/c", "/c/d"]);
    let mut none = Vec::new();
    collect_files(&Some(file("/f", Some(1))), &mut none);
    collect_files(&None, &mut none);
    assert!(none.is_empty());
}

#[test]
fn clean_plan_of_directory() {
    let plan = plan_clean_path(&sample()).ok().unwrap();
    assert_eq!(plan.freed, 35);
    assert_eq!(plan.files, 4);
    assert_eq!(
        removals(&plan),
        vec![
            (RemovalKind::File, "/c/a".to_string()),
            (RemovalKind::File, "/c/sub/b".to_string()),
            (RemovalKind::File, "/c/sub/c".to_string()),
            (RemovalKind::Dir, "/c/sub".to_string()),
            (RemovalKind::File, "/c/d".to_string()),
        ]
    );
}

#[test]
fn clean_matches_scan_on_directory() {
    let root = sample();
    let plan = plan_clean_path(&root).ok().unwrap();
    let mut files = Vec::new();
    collect_files(&root, &mut files);
    assert_eq!(Some(plan.freed), dir_size(&root));
    assert_eq!(plan.files as usize, files.len());
    let removed: Vec<Vec<u8>> = plan
        .removals
        .iter()
        .filter(|r| r.kind == RemovalKind::File)
        .map(|r| r.path.clone())
        .collect();
    assert_eq!(removed, files);
}

#[test]
fn clean_plan_of_file_and_missing_path() {
    let plan = plan_clean_path(&Some(file("/f", Some(7)))).ok().unwrap();
    assert_eq!((plan.freed, plan.files), (7, 1));
    assert_eq!(removals(&plan), vec![(RemovalKind::File, "/f".to_string())]);
    let plan = plan_clean_path(&Some(file("/f", None))).ok().unwrap();
    assert_eq!((plan.freed, plan.files), (0, 1));
    let plan = plan_clean_path(&None).ok().unwrap();
    assert_eq!((plan.freed, plan.files, plan.removals.len()), (0, 0, 0));
}

#[test]
fn clean_plan_overflow() {
    let big = Some(dir("/b", None, vec![file("/b/x", Some(u64::MAX)), file("/b/y", Some(1))]));
    assert!(matches!(plan_clean_path(&big), Err(Overflow)));
}

#[test]
fn rotated_log_names() {
    for name in ["syslog.1", "kern.log.2.gz", "dpkg.log.old", "x.3", "a.gz"] {
        assert!(is_rotated_log_name(&name.as_bytes().to_vec()), "{}", name);
    }
    for name in ["syslog", "x.4", "gz", "a.gzip", "log.10", ""] {
        assert!(!is_rotated_log_name(&name.as_bytes().to_vec()), "{}", name);
    }
    let mut odd = vec![0xffu8, 0xfe];
    odd.extend_from_slice(b".old");
    assert!(is_rotated_log_name(&odd));
}

fn var_log() -> Option<Entry> {
    Some(dir(
        "/var/log",
        Some(4096),
        vec![
            file("/var/log/syslog", Some(1000)),
            file("/var/log/syslog.1", Some(300)),
            file("/var/log/kern.log.2.gz", None),
            dir("/var/log/old.3", Some(4096), vec![file("/var/log/old.3/inner", Some(7))]),
            file("/var/log/auth.log.old", Some(50)),
        ],
    ))
}

#[test]
fn rotated_scan_counts_metadata_of_matching_entries() {
    assert_eq!(rotated_size(&var_log()), Some(300 + 4096 + 50));
    assert_eq!(rotated_size(&None), Some(0));
    assert_eq!(rotated_size(&Some(file("/var/log", Some(3)))), Some(0));
}

#[test]
fn rotated_clean_plan() {
    let plan = plan_clean_rotated(&var_log()).ok().unwrap();
    assert_eq!(Some(plan.freed), rotated_size(&var_log()));
    assert_eq!(plan.files, 4);
    assert_eq!(
        removals(&plan),
        vec![
            (RemovalKind::File, "/var/log/syslog.1".to_string()),
            (RemovalKind::File, "/var/log/kern.log.2.gz".to_string()),
            (RemovalKind::File, "/var/log/old.3".to_string()),
            (RemovalKind::File, "/var/log/auth.log.old".to_string()),
        ]
    );
    let big = Some(dir("/l", None, vec![file("/l/a.1", Some(u64::MAX)), file("/l/b.1", Some(1))]));
    assert!(plan_clean_rotated(&big).is_err());
}

#[test]
fn category_table_for_home() {
    let cats = scan_categories("/home/ann");
    assert_eq!(cats.len(), 12);
    assert_eq!(cats[0].name, "Package Cache (APT)");
    assert_eq!(cats[0].dirs, vec!["/var/cache/apt/archives"]);
    assert_eq!(cats[2].dirs, vec!["/var/cache/dnf", "/var/cache/yum"]);
    assert_eq!(cats[3].dirs, vec!["/home/ann/.cache/thumbnails"]);
    assert_eq!(cats[6].name, "Trash");
    assert_eq!(cats[6].dirs, vec!["/home/ann/.local/share/Trash/files", "/root/.local/share/Trash/files"]);
    assert_eq!(cats[7].name, "Old Logs (/var/log)");
    assert_eq!(cats[7].description, "Rotated & compressed log files (*.gz, *.old, *.1)");
    assert_eq!(cats[11].dirs, vec!["/home/ann/.cache/flatpak"]);
    assert_eq!(home_or_root(Some("/home/ann")), "/home/ann");
    assert_eq!(home_or_root(None), "/root");
}

#[test]
fn scan_category_tree_and_logs() {
    let cat = Category {
        name: "Temp Files (/tmp)".to_string(),
        description: "Temporary system files".to_string(),
        dirs: vec!["/tmp".to_string()],
    };
    let found = scan_category(&cat, &vec![sample()]).ok().unwrap().unwrap();
    assert_eq!((found.name.as_str(), found.size), ("Temp Files (/tmp)", 35));
    assert_eq!(found.paths, vec!["/tmp"]);
    assert!(scan_category(&cat, &vec![None]).ok().unwrap().is_none());
    assert!(scan_category(&cat, &vec![]).ok().unwrap().is_none());
    let logs = Category {
        name: "Old Logs (/var/log)".to_string(),
        description: String::new(),
        dirs: vec!["/var/log".to_string()],
    };
    let found = scan_category(&logs, &vec![var_log()]).ok().unwrap().unwrap();
    assert_eq!(found.size, 4446);
    let two = Category { name: "Two".to_string(), description: String::new(), dirs: vec!["/a".to_string(), "/b".to_string()] };
    let big = Some(dir("/a", None, vec![file("/a/x", Some(u64::MAX))]));
    assert!(scan_category(&two, &vec![big, sample()]).is_err());
}

#[test]
fn scan_targets_keeps_order_and_drops_empty() {
    let mut snaps: Vec<Vec<Option<Entry>>> = (0..12).map(|_| Vec::new()).collect();
    snaps[8] = vec![sample()];
    snaps[7] = vec![var_log()];
    snaps[0] = vec![Some(dir("/var/cache/apt/archives", None, vec![]))];
    let results = scan_targets("/home/ann", &snaps).ok().unwrap();
    let got: Vec<(String, u64)> = results.iter().map(|r| (r.name.clone(), r.size)).collect();
    assert_eq!(got, vec![("Old Logs (/var/log)".to_string(), 4446), ("Temp Files (/tmp)".to_string(), 35)]);
    assert!(scan_targets("/home/ann", &Vec::new()).ok().unwrap().is_empty());
}

fn result(name: &str, size: u64) -> ScanResult {
    ScanResult { name: name.to_string(), description: format!("{} files", name), size, paths: vec![format!("/{}", name)] }
}

#[test]
fn size_tiers() {
    assert_eq!(size_tier(500_000_001), SizeTier::Large);
    assert_eq!(size_tier(500_000_000), SizeTier::Medium);
    assert_eq!(size_tier(100_000_001), SizeTier::Medium);
    assert_eq!(size_tier(100_000_000), SizeTier::Small);
    assert_eq!(size_tier(0), SizeTier::Small);
}

#[test]
fn table_rows_and_total() {
    let results = vec![result("A", 512), result("B", 1536), result("C", 600_000_000)];
    let table = scan_table(&results).ok().unwrap();
    assert_eq!(table.total, 600_002_048);
    assert_eq!(table.total_text, humansize::format_size(600_002_048u64, humansize::BINARY));
    assert_eq!(table.rows.len(), 3);
    assert_eq!(table.rows[0].size_text, "512 B");
    assert_eq!(table.rows[1].size_text, "1.50 KiB");
    assert_eq!(table.rows[2].tier, SizeTier::Large);
    assert_eq!(table.rows[1].description, "B files");
    assert!(scan_table(&vec![result("A", u64::MAX), result("B", 1)]).is_err());
    assert_eq!(total_size(&vec![result("A", u64::MAX), result("B", 1)]), None);
}

#[test]
fn labels_are_padded() {
    let label = label_with("Trash", "1.00 KiB");
    assert_eq!(label, format!("{:<35} ({})", "Trash", "1.00 KiB"));
    let long = "x".repeat(40);
    assert_eq!(label_with(&long, "0 B"), format!("{} (0 B)", long));
    let labels = selection_labels(&vec![result("Snap Cache", 1023)]);
    assert_eq!(labels, vec![format!("{:<35} (1023 B)", "Snap Cache")]);
}

#[test]
fn picking_and_summary() {
    let results = vec![result("A", 10), result("B", 20), result("C", 30)];
    let picked = pick_results(&results, &vec![2, 0]).unwrap();
    assert_eq!(picked.iter().map(|r| r.size).collect::<Vec<_>>(), vec![30, 10]);
    assert_eq!(picked[0].paths, vec!["/C"]);
    assert!(pick_results(&results, &vec![3]).is_none());
    let summary = selection_summary(&picked).unwrap();
    assert_eq!((summary.count_text.as_str(), summary.size_text.as_str()), ("2", "40 B"));
    assert!(selection_summary(&vec![result("A", u64::MAX), result("B", 2)]).is_none());
}

#[test]
fn clean_targets() {
    match clean_target(&result("Old Logs (/var/log)", 1)) {
        CleanTarget::RotatedLogs(d) => assert_eq!(d, "/var/log"),
        CleanTarget::Paths(_) => panic!("log category cleans rotated logs"),
    }
    match clean_target(&result("Trash", 1)) {
        CleanTarget::Paths(p) => assert_eq!(p, vec!["/Trash"]),
        CleanTarget::RotatedLogs(_) => panic!("other categories clean their paths"),
    }
}

#[test]
fn tally_adds_plans() {
    let mut tally = CleanTally::new();
    tally.add_plan(&CleanPlan { removals: Vec::new(), freed: 1000, files: 3 }).unwrap();
    tally.add_plan(&CleanPlan { removals: Vec::new(), freed: 2048, files: 1 }).unwrap();
    assert_eq!((tally.freed, tally.files), (3048, 4));
    let (files, freed) = tally.summary();
    assert_eq!(files, "4");
    assert_eq!(freed, "2.98 KiB");
    assert!(tally.add_plan(&CleanPlan { removals: Vec::new(), freed: u64::MAX, files: 0 }).is_err());
    assert!(tally.add_plan(&CleanPlan { removals: Vec::new(), freed: 0, files: u32::MAX }).is_err());
    assert_eq!((tally.freed, tally.files), (3048, 4));
}

fn rank(t: SizeTier) -> u8 {
    match t {
        SizeTier::Large => 2,
        SizeTier::Medium => 1,
        SizeTier::Small => 0,
    }
}

#[test]
fn tiers_never_drop_as_size_grows() {
    let sizes = [0u64, 1, 100_000_000, 100_000_001, 499_999_999, 500_000_000, 500_000_001, u64::MAX];
    for pair in sizes.windows(2) {
        assert!(rank(size_tier(pair[0])) <= rank(size_tier(pair[1])));
    }
}

#[test]
fn adding_a_file_adds_its_length() {
    let before = sample();
    let after = Some(dir(
        "/c",
        Some(4096),
        vec![
            file("/c/a", Some(10)),
            dir(
                "/c/sub",
                Some(4096),
                vec![file("/c/sub/b", Some(20)), file("/c/sub/new", Some(123)), file("/c/sub/c", None)],
            ),
            file("/c/d", Some(5)),
        ],
    ));
    assert_eq!(dir_size(&after), Some(dir_size(&before).unwrap() + 123));
}

fn size_of_path(root: &Entry, path: &[u8]) -> Option<u64> {
    match root {
        Entry::File { path: p, size, .. } => if p.as_slice() == path { Some(size.unwrap_or(0)) } else { None },
        Entry::Dir { children, .. } => children.iter().find_map(|c| size_of_path(c, path)),
    }
}

#[test]
fn collected_files_are_what_size_sums() {
    let root = sample();
    let mut files = vec![b"/before".to_vec()];
    collect_files(&root, &mut files);
    let tree = root.as_ref().unwrap();
    let sum: u64 = files[1..].iter().map(|p| size_of_path(tree, p).unwrap()).sum();
    assert_eq!(Some(sum), dir_size(&root));
}

#[test]
fn cleaning_deletes_every_path_below() {
    let plan = plan_clean_path(&sample()).ok().unwrap();
    let mut paths: Vec<String> = removals(&plan).into_iter().map(|(_, p)| p).collect();
    paths.sort();
    assert_eq!(paths, vec!["/c/a", "/c/d", "/c/sub", "/c/sub/b", "/c/sub/c"]);
}

#[test]
fn nothing_left_after_clean() {
    let after = Some(dir("/c", Some(4096), vec![]));
    assert_eq!(dir_size(&after), Some(0));
    let again = plan_clean_path(&after).ok().unwrap();
    assert_eq!((again.freed, again.files, again.removals.len()), (0, 0, 0));
    let logs_after = Some(dir(
        "/var/log",
        Some(4096),
        vec![file("/var/log/syslog", Some(1000))],
    ));
    assert_eq!(rotated_size(&logs_after), Some(0));
    assert_eq!(plan_clean_rotated(&logs_after).ok().unwrap().removals.len(), 0);
}

#[test]
fn rescan_after_clean_finds_nothing() {
    let mut before: Vec<Vec<Option<Entry>>> = (0..12).map(|_| Vec::new()).collect();
    before[8] = vec![sample()];
    before[7] = vec![Some(dir("/var/log", Some(4096), vec![file("/var/log/syslog", Some(9)), file("/var/log/syslog.1", Some(3))]))];
    assert_eq!(scan_targets("/root", &before).ok().unwrap().len(), 2);
    let mut after: Vec<Vec<Option<Entry>>> = (0..12).map(|_| Vec::new()).collect();
    after[8] = vec![Some(dir("/c", Some(4096), vec![]))];
    after[7] = vec![Some(dir("/var/log", Some(4096), vec![file("/var/log/syslog", Some(9))]))];
    assert!(scan_targets("/root", &after).ok().unwrap().is_empty());
}

fn cache(with_thumbs: bool) -> Option<Entry> {
    let mut children = vec![file("/h/.cache/x", Some(7))];
    if with_thumbs {
        children.push(dir("/h/.cache/thumbnails", Some(4096), vec![file("/h/.cache/thumbnails/t", Some(11))]));
    } else {
        children.push(dir("/h/.cache/thumbnails", Some(4096), vec![]));
    }
    Some(dir("/h/.cache", Some(4096), children))
}

#[test]
fn clean_order_does_not_change_totals() {
    // thumbnails first, then the whole cache
    let mut first = CleanTally::new();
    let thumbs = Some(dir("/h/.cache/thumbnails", Some(4096), vec![file("/h/.cache/thumbnails/t", Some(11))]));
    first.add_plan(&plan_clean_path(&thumbs).ok().unwrap()).unwrap();
    first.add_plan(&plan_clean_path(&cache(false)).ok().unwrap()).unwrap();
    // the whole cache first; thumbnails is then gone
    let mut second = CleanTally::new();
    second.add_plan(&plan_clean_path(&cache(true)).ok().unwrap()).unwrap();
    second.add_plan(&plan_clean_path(&None).ok().unwrap()).unwrap();
    assert_eq!((first.freed, first.files), (second.freed, second.files));
    assert_eq!((first.freed, first.files), (18, 2));
}

#[test]
fn rescan_after_nested_clean_finds_nothing() {
    let mut after: Vec<Vec<Option<Entry>>> = (0..12).map(|_| Vec::new()).collect();
    after[3] = vec![None];
    after[9] = vec![Some(dir("/h/.cache", Some(4096), vec![]))];
    after[10] = vec![None];
    assert!(scan_targets("/h", &after).ok().unwrap().is_empty());
}
