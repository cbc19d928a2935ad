use clearlinux::sysinfo::detect_distro;
use clearlinux::sysinfo::disk_text;
use clearlinux::sysinfo::first_field;
use clearlinux::sysinfo::kernel_text;
use clearlinux::sysinfo::uptime_text;
use clearlinux::text::decimal_text;
use clearlinux::text::join_strings;
use clearlinux::text::same_text;
use clearlinux::text::split_fields;
use clearlinux::text::split_lines;
use clearlinux::text::trimmed;

#[test]
fn distro_from_pretty_name() {
    let text = "NAME=\"Ubuntu\"\nVERSION_ID=\"22.04\"\nPRETTY_NAME=\"Ubuntu 22.04.3 LTS\"\nID=ubuntu\n";
    assert_eq!(detect_distro(Some(text)), "Ubuntu 22.04.3 LTS");
}

#[test]
fn distro_first_matching_line_wins() {
    let text = "PRETTY_NAME=First\nPRETTY_NAME=Second\n";
    assert_eq!(detect_distro(Some(text)), "First");
}

#[test]
fn distro_unquoted_and_repeated_key() {
    assert_eq!(detect_distro(Some("PRETTY_NAME=Arch Linux")), "Arch Linux");
    assert_eq!(detect_distro(Some("PRETTY_NAME=PRETTY_NAME=\"\"x\"\"\r\n")), "x");
}

#[test]
fn distro_unknown() {
    assert_eq!(detect_distro(None), "Unknown Linux");
    assert_eq!(detect_distro(Some("NAME=Debian\n PRETTY_NAME=\"indented\"\n")), "Unknown Linux");
    assert_eq!(detect_distro(Some("")), "Unknown Linux");
}

#[test]
fn distro_never_quoted() {
    assert_eq!(detect_distro(Some("PRETTY_NAME=\"\"\"")), "");
    let name = detect_distro(Some("PRETTY_NAME=\"a \"quoted\" name\""));
    assert_eq!(name, "a \"quoted\" name");
    assert!(!name.starts_with('"') && !name.ends_with('"'));
}

#[test]
fn kernel_release_trimmed() {
    assert_eq!(kernel_text(Some("6.5.0-14-generic\n")), "6.5.0-14-generic");
    assert_eq!(kernel_text(Some("  \t 6.1 \u{a0}\n")), "6.1");
    assert_eq!(kernel_text(Some("")), "");
    assert_eq!(kernel_text(None), "unknown");
}

#[test]
fn uptime_hours_and_minutes() {
    assert_eq!(uptime_text(Some(0)), "0h 0m");
    assert_eq!(uptime_text(Some(3599)), "0h 59m");
    assert_eq!(uptime_text(Some(3600)), "1h 0m");
    assert_eq!(uptime_text(Some(93784)), "26h 3m");
    assert_eq!(uptime_text(None), "unknown");
}

#[test]
fn uptime_parts_law_on_values() {
    for secs in [0u64, 59, 60, 3599, 3600, 3661, 86399, 1_000_000] {
        let h = secs / 3600;
        let m = (secs % 3600) / 60;
        assert!(m < 60);
        assert!(h * 3600 + m * 60 <= secs && secs < h * 3600 + m * 60 + 60);
        assert_eq!(uptime_text(Some(secs)), format!("{}h {}m", h, m));
    }
}

#[test]
fn first_field_of_uptime_file() {
    assert_eq!(first_field("12345.67 54321.00\n"), Some("12345.67".to_string()));
    assert_eq!(first_field("   \n"), None);
}

#[test]
fn disk_summary_second_line() {
    let out = " Used Avail Use%\n  45G   180G  20%\n";
    assert_eq!(disk_text(Some(out)), "45G  /  180G  /  20%");
    assert_eq!(disk_text(Some("only header\n")), "unavailable");
    assert_eq!(disk_text(Some("header\n\n")), "");
    assert_eq!(disk_text(None), "unavailable");
}

#[test]
fn lines_like_std() {
    for text in ["", "a", "a\n", "a\n\n", "a\r\nb", "a\rb\r", "\n\nx\r\n", "x\r"] {
        let ours = split_lines(text);
        let theirs: Vec<String> = text.lines().map(|l| l.to_string()).collect();
        assert_eq!(ours, theirs, "lines of {:?}", text);
    }
}

#[test]
fn fields_like_std() {
    for text in ["", "  ", "a b", " a\t\tb \u{3000}c\u{2028}", "x\u{85}y", "one"] {
        let ours = split_fields(text);
        let theirs: Vec<String> = text.split_whitespace().map(|w| w.to_string()).collect();
        assert_eq!(ours, theirs, "fields of {:?}", text);
        for f in &ours {
            assert!(!f.is_empty() && !f.chars().any(|c| c.is_whitespace()));
        }
    }
}

#[test]
fn trim_like_std() {
    for text in ["", " ", " a ", "\u{2000}x y\u{205f}", "\u{200b}z\u{200b}"] {
        assert_eq!(trimmed(text), text.trim());
    }
}

#[test]
fn join_and_decimal() {
    let parts = vec!["a".to_string(), "bc".to_string(), "".to_string()];
    assert_eq!(join_strings(&parts, ", "), "a, bc, ");
    assert_eq!(join_strings(&Vec::new(), ", "), "");
    assert_eq!(decimal_text(0), "0");
    assert_eq!(decimal_text(10), "10");
    assert_eq!(decimal_text(u64::MAX), "18446744073709551615");
}

#[test]
fn same_text_compares_characters() {
    assert!(same_text("Old Logs (/var/log)", "Old Logs (/var/log)"));
    assert!(!same_text("Old Logs", "Old Logs (/var/log)"));
    assert!(!same_text("abc", "abd"));
}
