use fnf::cmd::Cmd;
use fnf::display::{format_size, shorten_repo, split_diff};
use fnf::dnf::{check_cmd, check_outcome, clean_cmd, dnf_cmd, exit_outcome, is_agreement, refresh_cmd, upgrade_cmd, upgrade_specs};
use fnf::render::{styled_line, Style};
use fnf::layout::{column_widths, display_lines, repository_order, row_text, summary_line, DisplayLine, GroupBy, RepoText};
use fnf::model::{PackageUpdate, SizeInfo};
use fnf::size::{parse_dnf_size, SizeError};
use fnf::stderr::{parse_disk_line, parse_download_line, StderrAction, StderrState};
use fnf::stdout::{normalize_version, parse_update_lines, UpdateParseError};

#[test]
fn refresh_command_forces_repository_metadata_refresh() {
    assert_eq!(
        refresh_cmd().to_string(),
        "LC_ALL=C.UTF-8 /usr/bin/dnf --refresh makecache"
    );
}

#[test]
fn clean_command_removes_all_cached_dnf_data() {
    assert_eq!(
        clean_cmd().to_string(),
        "LC_ALL=C.UTF-8 /usr/bin/dnf clean all"
    );
}

fn update(name: &str, arch: &str, old: &str, new: &str, old_repo: &str, new_repo: &str, size: u64) -> PackageUpdate {
    PackageUpdate {
        name: name.to_string(),
        arch: arch.to_string(),
        old_version: old.to_string(),
        new_version: new.to_string(),
        old_repo: old_repo.to_string(),
        new_repo: new_repo.to_string(),
        download_size: size,
    }
}

// ----------------------------------------------------------------------------
// Commands

#[test]
fn check_command_lists_without_upgrading() {
    assert_eq!(
        check_cmd().to_string(),
        "LC_ALL=C.UTF-8 /usr/bin/dnf upgrade --assumeno --color=never"
    );
}

#[test]
fn bare_dnf_command_shows_trailing_space() {
    assert_eq!(dnf_cmd().to_string(), "LC_ALL=C.UTF-8 /usr/bin/dnf ");
}

#[test]
fn command_builder_keeps_order() {
    let mut c = Cmd::new("prog");
    c.arg("a").arg("b").args(&["c", "d"]);
    c.env("X", "1").env("Y", "2");
    assert_eq!(c.to_string(), "X=1 Y=2 prog a b c d");
    assert_eq!(c.program(), "prog");
    assert_eq!(c.arg_list(), &vec!["a".to_string(), "b".to_string(), "c".to_string(), "d".to_string()]);
    assert_eq!(c.env_list().len(), 2);
}

#[test]
fn upgrade_command_pins_versions() {
    let ups = vec![
        update("curl", "x86_64", "8.6.0-8.fc40", "8.6.0-10.fc40", "fedora", "updates", 1),
        update("vim", "noarch", "9.1-1", "2:9.1-2", "fedora", "updates", 2),
    ];
    assert_eq!(
        upgrade_specs(&ups),
        vec!["curl-8.6.0-10.fc40.x86_64".to_string(), "vim-2:9.1-2.noarch".to_string()]
    );
    assert_eq!(
        upgrade_cmd(&ups).to_string(),
        "LC_ALL=C.UTF-8 /usr/bin/dnf upgrade -y curl-8.6.0-10.fc40.x86_64 vim-2:9.1-2.noarch"
    );
}

#[test]
fn agreement_answers() {
    assert!(is_agreement(""));
    assert!(is_agreement("\n"));
    assert!(is_agreement("y\n"));
    assert!(is_agreement("  Y  "));
    assert!(is_agreement("yes"));
    assert!(is_agreement("YeS\r\n"));
    assert!(!is_agreement("n"));
    assert!(!is_agreement("no"));
    assert!(!is_agreement("yess"));
    assert!(!is_agreement("y es"));
}

#[test]
fn exit_codes() {
    assert!(exit_outcome("x".to_string(), 0).is_ok());
    let e = exit_outcome("dnf clean all".to_string(), 3).unwrap_err();
    assert_eq!(e.command, "dnf clean all");
    assert_eq!(e.code, 3);
}

// ----------------------------------------------------------------------------
// Sizes

fn float_size(number: &str, unit: &str) -> Option<u64> {
    let n: f64 = number.parse().ok()?;
    let scale = match unit {
        "GiB" => (1u64 << 30) as f64,
        "MiB" => (1u64 << 20) as f64,
        "KiB" => (1u64 << 10) as f64,
        "B" => 1.0,
        _ => return None,
    };
    Some((n * scale) as u64)
}

#[test]
fn sizes_match_floating_point_reading() {
    let numbers = [
        "0", "1", "53", "1.2", "0.1", "999.9", "450.3", "12.25", "1e3", "1E-2", ".5", "5.", "+7",
        "-3", "-0", "inf", "-inf", "Infinity", "NaN", "nan", "1.5e2", "2.5e-1", "0.000001",
        "123456789", "17179869184", "1e30", "1e-30", "00012.500", "0.99999999999999999999",
        "9007199254740993", "9007199254740995", "9007199254740991.5", "4503599627370495.5",
        "4503599627370495.75", "18446744073709551615", "18446744073709549568",
        "18446744073709550591", "18446744073709550592", "1.0000000000000000001",
        "0.49999999999999999", "0.5", "2.5", "1e-400", "1e400", "1e308", "-1e400",
        "123456789012345678901234567890e-10", "0.1000000000000000055511151231257827",
        "17592186044415.99999999", "8589934591.9999999999", "16777215.999999999999999",
        "0.999999999999999944488848768742172978818416595458984375",
        "0.999999999999999944488848768742172978818416595458984374",
        "9007199254740993.0000000001", "18014398509481986.5", "18014398509481990",
        "4503599627370496.5", "4503599627370497.5", "0.00000000000000000000000001e26",
    ];
    for n in numbers {
        for u in ["GiB", "MiB", "KiB", "B"] {
            let got = parse_dnf_size(n, u).ok();
            assert_eq!(got, float_size(n, u), "{n} {u}");
        }
    }
}

#[test]
fn generated_sizes_match_floating_point_reading() {
    let mut state: u64 = 0x2545_f491_4f6c_dd1d;
    let mut next = move |bound: u64| {
        state = state.wrapping_mul(6364136223846793005).wrapping_add(1442695040888963407);
        (state >> 33) % bound
    };
    for _ in 0..4000 {
        let len = 1 + next(26) as usize;
        let mut digits = String::new();
        for k in 0..len {
            let d = if k == 0 { next(10) } else if next(4) == 0 { 9 } else { next(10) };
            digits.push(char::from(b'0' + d as u8));
        }
        let mut number = match next(3) {
            0 => digits.clone(),
            _ => {
                let at = next(len as u64 + 1) as usize;
                format!("{}.{}", &digits[..at], &digits[at..])
            }
        };
        if next(3) == 0 {
            let e = next(61) as i64 - 30;
            number = format!("{number}e{e}");
        }
        for u in ["GiB", "MiB", "KiB", "B"] {
            let got = parse_dnf_size(&number, u).ok();
            assert_eq!(got, float_size(&number, u), "{number} {u}");
        }
    }
}

#[test]
fn size_errors() {
    assert!(matches!(parse_dnf_size("abc", "MiB"), Err(SizeError::InvalidNumber { number }) if number == "abc"));
    assert!(matches!(parse_dnf_size("1.2.3", "MiB"), Err(SizeError::InvalidNumber { .. })));
    assert!(matches!(parse_dnf_size("", "B"), Err(SizeError::InvalidNumber { .. })));
    assert!(matches!(parse_dnf_size(".", "B"), Err(SizeError::InvalidNumber { .. })));
    assert!(matches!(parse_dnf_size("1e", "B"), Err(SizeError::InvalidNumber { .. })));
    assert!(matches!(parse_dnf_size("1", "TiB"), Err(SizeError::UnknownUnit { unit }) if unit == "TiB"));
    // The number is checked before the unit.
    assert!(matches!(parse_dnf_size("x", "TiB"), Err(SizeError::InvalidNumber { .. })));
}

#[test]
fn sizes_exact_values() {
    assert_eq!(parse_dnf_size("53", "MiB").unwrap(), 53 * 1048576);
    assert_eq!(parse_dnf_size("1.5", "KiB").unwrap(), 1536);
    assert_eq!(parse_dnf_size("0.1", "KiB").unwrap(), 102);
    assert_eq!(parse_dnf_size("1e30", "B").unwrap(), u64::MAX);
    assert_eq!(parse_dnf_size("-5", "GiB").unwrap(), 0);
}

#[test]
fn format_size_matches_floating_point_formatting() {
    fn expected(bytes: u64) -> String {
        if bytes >= 1 << 30 {
            format!("{:.1} GiB", bytes as f64 / (1u64 << 30) as f64)
        } else if bytes >= 1 << 20 {
            format!("{:.1} MiB", bytes as f64 / (1u64 << 20) as f64)
        } else if bytes >= 1 << 10 {
            format!("{:.1} KiB", bytes as f64 / (1u64 << 10) as f64)
        } else {
            format!("{} B", bytes)
        }
    }
    let mut samples: Vec<u64> = (0..5000).collect();
    samples.extend((0..3000).map(|i| 1024 * i + 51));
    samples.extend((0..2000).map(|i| 104857 * i + 52428));
    for k in [10u32, 20, 30, 40, 53, 54, 60, 63] {
        let p = 1u64 << k;
        for d in 0..40u64 {
            samples.push(p.wrapping_add(d * 1024 * 51).wrapping_sub(20));
            samples.push(p - 1);
        }
    }
    samples.push(u64::MAX);
    samples.push(u64::MAX - 1024);
    samples.push((1 << 53) + 1);
    for b in samples {
        assert_eq!(format_size(b), expected(b), "{b}");
    }
}

#[test]
fn format_size_examples() {
    assert_eq!(format_size(0), "0 B");
    assert_eq!(format_size(1023), "1023 B");
    assert_eq!(format_size(1024), "1.0 KiB");
    assert_eq!(format_size(1280), "1.2 KiB"); // exactly 1.25: ties to even
    assert_eq!(format_size(1408), "1.4 KiB"); // exactly 1.375
    assert_eq!(format_size(53 * 1048576), "53.0 MiB");
    assert_eq!(format_size(3 * 1073741824 / 2), "1.5 GiB");
}

#[test]
fn printed_byte_counts_read_back() {
    for n in [0u64, 7, 512, 1023, 1024, 999_999, 9007199254740992, u64::MAX] {
        assert_eq!(parse_dnf_size(&n.to_string(), "B").unwrap(), n);
    }
    // Beyond 2^53 a count is read as the nearest `f64`.
    assert_eq!(parse_dnf_size("9007199254740993", "B").unwrap(), 9007199254740992);
}

// ----------------------------------------------------------------------------
// Package table

const TABLE: &str = "Package                 Arch   Version          Repository      Size
Upgrading:
 vim-enhanced           x86_64 2:9.1.1000-1.fc41 updates      2.0 MiB
   replacing vim-enhanced x86_64 2:9.1.900-1.fc41 updates      2.0 MiB
 curl                   x86_64 0:8.9.1-3.fc41    updates    450.3 KiB
   replacing curl       x86_64 0:8.9.1-2.fc41    fedora     450.0 KiB
 bash                   x86_64 5.2.32-1.fc41    updates      1.8 MiB
   replacing bash       x86_64 5.2.26-3.fc41    @System      8.1 MiB

Transaction Summary:
 Upgrading:          3 packages
 Replacing:          3 packages
";

#[test]
fn table_is_read_and_sorted_by_name() {
    let ups = parse_update_lines(TABLE).unwrap();
    let names: Vec<&str> = ups.iter().map(|u| u.name.as_str()).collect();
    assert_eq!(names, ["bash", "curl", "vim-enhanced"]);
    let curl = &ups[1];
    assert_eq!(curl.arch, "x86_64");
    assert_eq!(curl.old_version, "8.9.1-2.fc41");
    assert_eq!(curl.new_version, "8.9.1-3.fc41");
    assert_eq!(curl.old_repo, "fedora");
    assert_eq!(curl.new_repo, "updates");
    assert_eq!(curl.download_size, (450.3f64 * 1024.0) as u64);
    assert_eq!(ups[2].new_version, "2:9.1.1000-1.fc41");
    assert_eq!(ups[0].old_repo, "@System");
}

#[test]
fn table_with_crlf_and_no_upgrades() {
    assert_eq!(parse_update_lines("").unwrap().len(), 0);
    assert_eq!(parse_update_lines("Nothing to do.\r\n").unwrap().len(), 0);
    let t = "Upgrading:\r\n a x 1 r 1 B\r\n   replacing a x 0 q 1 B\r\n";
    let ups = parse_update_lines(t).unwrap();
    assert_eq!(ups.len(), 1);
    assert_eq!(ups[0].old_repo, "q");
}

#[test]
fn sort_is_stable() {
    let t = "Upgrading:\n b x 2 r 1 B\n   replacing b x 1 r 1 B\n a x 2 r 1 B\n   replacing a x 1 r 1 B\n b y 3 s 1 B\n   replacing b y 1 s 1 B\n";
    let ups = parse_update_lines(t).unwrap();
    let v: Vec<(&str, &str)> = ups.iter().map(|u| (u.name.as_str(), u.arch.as_str())).collect();
    assert_eq!(v, [("a", "x"), ("b", "x"), ("b", "y")]);
}

#[test]
fn indented_lines_outside_upgrading_are_ignored() {
    let t = "Installing:\n foo x 1 r 1 B\n whatever\nUpgrading:   \n a x 1 r 1 B\n   replacing a x 0 r 1 B\n";
    let ups = parse_update_lines(t).unwrap();
    assert_eq!(ups.len(), 1);
}

#[test]
fn table_errors() {
    let e = parse_update_lines("Upgrading:\n a x 1 r 1 B\nDone\n").unwrap_err();
    assert!(matches!(e, UpdateParseError::SectionEnded { name } if name == "a"));
    let e = parse_update_lines("Upgrading:\n   replacing a x 1 r 1 B\n").unwrap_err();
    assert!(matches!(e, UpdateParseError::UnexpectedReplacing { .. }));
    let e = parse_update_lines("Upgrading:\n a x 1 r 1 B\n   replacing a x 1\n").unwrap_err();
    assert!(matches!(e, UpdateParseError::ReplacingFields { count: 3, .. }));
    let e = parse_update_lines("Upgrading:\n a x 1 r 1 B\n   replacing b x 1 r 1 B\n").unwrap_err();
    assert!(matches!(e, UpdateParseError::ReplacingName { found, expected } if found == "b" && expected == "a"));
    let e = parse_update_lines("Upgrading:\n a x 1 r 1 B\n b x 1 r 1 B\n").unwrap_err();
    assert!(matches!(e, UpdateParseError::ExpectedReplacing { name, .. } if name == "a"));
    let e = parse_update_lines("Upgrading:\n a x 1 r 1\n").unwrap_err();
    assert!(matches!(e, UpdateParseError::PackageFields { count: 5, .. }));
    let e = parse_update_lines("Upgrading:\n a x 1 r 1 XB\n").unwrap_err();
    assert!(matches!(e, UpdateParseError::Size { error: SizeError::UnknownUnit { .. }, .. }));
    let e = parse_update_lines("Upgrading:\n a x 1 r 1 B").unwrap_err();
    assert!(matches!(e, UpdateParseError::OutputEnded { name } if name == "a"));
}

#[test]
fn versions_lose_zero_epoch() {
    assert_eq!(normalize_version("0:1.2-3"), "1.2-3");
    assert_eq!(normalize_version("2:1.2-3"), "2:1.2-3");
    assert_eq!(normalize_version("0"), "0");
}

// ----------------------------------------------------------------------------
// Standard error

#[test]
fn download_and_disk_lines() {
    assert_eq!(
        parse_download_line("Total size of inbound packages is 53 MiB. Need to download 53 MiB."),
        Some(53 * 1048576)
    );
    assert_eq!(
        parse_download_line("Total size of inbound packages is 53 MiB. Need to download 1.5 KiB."),
        Some(1536)
    );
    assert_eq!(parse_download_line("Total size of inbound packages is 53 MiB."), None);
    assert_eq!(parse_download_line("Total size. Need to get 1 B."), None);
    assert_eq!(
        parse_disk_line("After this operation, 11 MiB extra will be used (install 275 MiB, remove 264 MiB)."),
        Some(11 * 1048576)
    );
    assert_eq!(
        parse_disk_line("After this operation, 5 MiB will be freed (install 264 MiB, remove 269 MiB)."),
        Some(-5 * 1048576)
    );
    assert_eq!(parse_disk_line("After this operation, 5 MiB will be used."), None);
    assert_eq!(parse_disk_line("After this operation, 5 MiB"), None);
    assert_eq!(parse_disk_line("Before this operation, 5 MiB extra will be"), None);
}

#[test]
fn stderr_state_machine() {
    let mut s = StderrState::new();
    assert!(matches!(s.line("Updating and loading repositories:"), StderrAction::StartSpinner));
    assert!(s.spinner());
    assert!(matches!(s.line("fedora 100%"), StderrAction::PrintAboveSpinner(t) if t == "fedora 100%"));
    assert!(matches!(s.line("Repositories loaded."), StderrAction::StopSpinner));
    assert!(!s.spinner());
    assert!(matches!(s.line("Repositories loaded."), StderrAction::Nothing));
    assert!(matches!(s.line("Operation aborted by the user."), StderrAction::Nothing));
    assert!(matches!(
        s.line("Total size of inbound packages is 53 MiB. Need to download 2 MiB."),
        StderrAction::Nothing
    ));
    assert!(matches!(
        s.line("After this operation, 5 MiB will be freed (install 264 MiB, remove 269 MiB)."),
        StderrAction::Nothing
    ));
    assert!(matches!(s.line("warning"), StderrAction::Print(t) if t == "warning"));
    assert_eq!(s.sizes().download, Some(2 * 1048576));
    assert_eq!(s.sizes().net_disk, Some(-5 * 1048576));
    let end = s.finish();
    assert!(!end.clear_spinner);
    assert!(end.aborted);
    assert_eq!(end.sizes.download, Some(2 * 1048576));
    let mut s = StderrState::new();
    s.line("Updating and loading repositories:");
    assert!(s.spinner());
    let end = s.finish();
    assert!(end.clear_spinner);
    assert!(!end.aborted);
}

// ----------------------------------------------------------------------------
// Display

#[test]
fn repository_names_are_shortened() {
    assert_eq!(shorten_repo("0123456789abcdef0123"), "01..23");
    assert_eq!(shorten_repo("0123456789abcdef012"), "0123456789abcdef012");
    assert_eq!(shorten_repo("updates"), "updates");
    assert_eq!(shorten_repo("0123456789abcdef012g"), "0123456789abcdef012g");
}

#[test]
fn version_changes_are_split() {
    let d = split_diff("1.2.3-1.fc41", "1.2.4-1.fc41");
    assert_eq!((d.prefix.as_str(), d.old_mid.as_str(), d.new_mid.as_str(), d.suffix.as_str()), ("1.2.", "3", "4", "-1.fc41"));
    let d = split_diff("abc", "abc");
    assert_eq!((d.prefix.as_str(), d.old_mid.as_str(), d.new_mid.as_str(), d.suffix.as_str()), ("abc", "", "", ""));
    let d = split_diff("", "1.0");
    assert_eq!((d.prefix.as_str(), d.old_mid.as_str(), d.new_mid.as_str(), d.suffix.as_str()), ("", "", "1.0", ""));
    let d = split_diff("1.10", "1.9");
    assert_eq!((d.prefix.as_str(), d.old_mid.as_str(), d.new_mid.as_str(), d.suffix.as_str()), ("1.", "10", "9", ""));
}

#[test]
fn headline_texts() {
    let ups = vec![
        update("a", "x", "1", "2", "r", "r", 1024),
        update("b", "x", "1", "2", "r", "r", 2048),
    ];
    let none = SizeInfo { download: None, net_disk: None };
    assert_eq!(summary_line(&ups, &none), " :: 2 packages to upgrade  (3.0 KiB)");
    let both = SizeInfo { download: Some(53 * 1048576), net_disk: Some(-5 * 1048576) };
    assert_eq!(summary_line(&ups, &both), " :: 2 packages to upgrade  (53.0 MiB download, -5.0 MiB disk)");
    let dl = SizeInfo { download: Some(512), net_disk: None };
    let one = vec![update("a", "x", "1", "2", "r", "r", 1024)];
    assert_eq!(summary_line(&one, &dl), " :: 1 package to upgrade  (512 B)");
    let disk = SizeInfo { download: None, net_disk: Some(11 * 1048576) };
    assert_eq!(summary_line(&ups, &disk), " :: 2 packages to upgrade  (+11.0 MiB disk)");
}

#[test]
fn rows_are_aligned() {
    let ups = vec![
        update("bash", "x86_64", "5.2.26-3", "5.2.32-1", "fedora", "updates", 1887436),
        update("vim-enhanced", "noarch", "9.1", "9.1.1000", "updates", "updates", 512),
    ];
    let c = column_widths(&ups);
    assert_eq!((c.name, c.arch, c.old_version, c.new_version, c.size), (12, 6, 8, 8, 7));
    let r = row_text(&ups[0], c, true);
    assert_eq!(r.name, "bash        ");
    assert_eq!(r.arch.as_deref(), Some("x86_64"));
    assert_eq!(r.old_pad, "");
    assert_eq!(r.size, "1.8 MiB");
    assert_eq!(r.size_pad, "");
    assert!(matches!(&r.repo, RepoText::Changed(d) if d.old_mid == "fedora" && d.new_mid == "updates"));
    let r = row_text(&ups[1], c, false);
    assert!(r.arch.is_none());
    assert_eq!(r.old_pad, "     ");
    assert_eq!(r.size, "512 B");
    assert_eq!(r.size_pad, "  ");
    assert!(matches!(&r.repo, RepoText::Same(s) if s == "updates"));
}

#[test]
fn rows_grouped_by_repository() {
    let ups = vec![
        update("b", "x", "1", "2", "r", "zz", 1),
        update("a", "x", "1", "2", "r", "zz", 1),
        update("c", "x", "1", "2", "", "aa", 1),
    ];
    assert_eq!(repository_order(&ups), vec![2, 1, 0]);
    let sizes = SizeInfo { download: None, net_disk: None };
    let lines = display_lines(&ups, false, GroupBy::Repository, &sizes);
    let kinds: Vec<String> = lines
        .iter()
        .map(|l| match l {
            DisplayLine::Headline(_) => "H".to_string(),
            DisplayLine::Blank => "_".to_string(),
            DisplayLine::Heading(s) => format!("#{s}"),
            DisplayLine::Row(r) => r.name.trim_end().to_string(),
        })
        .collect();
    assert_eq!(kinds, ["H", "_", "#aa", "c", "_", "#zz", "a", "b"]);
    let flat = display_lines(&ups, false, GroupBy::Flat, &sizes);
    assert_eq!(flat.len(), 5);
    assert!(matches!(&flat[2], DisplayLine::Row(r) if r.name == "b"));
}

#[test]
fn upgrade_runs_the_versions_shown() {
    let ups = vec![
        update("vim", "noarch", "9.1-1", "2:9.1-2", "fedora", "updates", 2),
        update("curl", "x86_64", "8.6.0-8.fc40", "8.6.0-10.fc40", "fedora", "updates", 1),
        update("bash", "x86_64", "5.2-1", "5.2-3", "", "fedora", 3),
    ];
    let sizes = SizeInfo { download: None, net_disk: None };
    let command = upgrade_cmd(&ups).to_string();
    for group in [GroupBy::Repository, GroupBy::Flat] {
        let mut shown = Vec::new();
        for line in display_lines(&ups, true, group, &sizes) {
            if let DisplayLine::Row(r) = line {
                let version = format!("{}{}{}", r.version.prefix, r.version.new_mid, r.version.suffix);
                let arch = r.arch.unwrap();
                let spec = format!("{}-{}.{}", r.name.trim_end(), version, arch.trim_end());
                assert!(command.split(' ').any(|a| a == spec), "{spec}");
                shown.push(spec);
            }
        }
        assert_eq!(shown.len(), ups.len());
    }
}

fn summary_text(ups: &Vec<PackageUpdate>, show_arch: bool, group: GroupBy, sizes: &SizeInfo) -> String {
    let mut out = String::new();
    for line in display_lines(ups, show_arch, group, sizes) {
        for seg in styled_line(&line) {
            out.push_str(&seg.text);
        }
        out.push('\n');
    }
    out
}

#[test]
fn summary_text_for_two_packages() {
    let ups = vec![
        update("zlib", "x86_64", "1.2", "1.3", "fedora", "updates", 2048),
        update("bash", "x86_64", "5.1", "5.2", "updates", "updates", 1048576),
    ];
    let sizes = SizeInfo::default();
    assert_eq!(
        summary_text(&ups, false, GroupBy::Repository, &sizes),
        " :: 2 packages to upgrade  (1.0 MiB)\n\n  updates\n    bash  5.1 -> 5.2  1.0 MiB  updates\n    zlib  1.2 -> 1.3  2.0 KiB  fedora -> updates\n"
    );
    assert_eq!(
        summary_text(&ups, true, GroupBy::Flat, &sizes),
        " :: 2 packages to upgrade  (1.0 MiB)\n\n    zlib  x86_64  1.2 -> 1.3  2.0 KiB  fedora -> updates\n    bash  x86_64  5.1 -> 5.2  1.0 MiB  updates\n"
    );
}

#[test]
fn row_segments_carry_styles() {
    let ups = vec![update("curl", "x86_64", "8.6.0-8", "8.6.0-10", "fedora", "updates", 1)];
    let lines = display_lines(&ups, false, GroupBy::Flat, &SizeInfo::default());
    let segs = styled_line(&lines[2]);
    let styled: Vec<(String, Style)> = segs.into_iter().map(|s| (s.text, s.style)).collect();
    assert!(styled.contains(&("8".to_string(), Style::Removed)));
    assert!(styled.contains(&("10".to_string(), Style::Added)));
    assert!(styled.contains(&("curl".to_string(), Style::Bold)));
    assert!(matches!(styled_line(&lines[0])[0].style, Style::Headline));
    assert!(styled_line(&lines[1]).is_empty());
}

#[test]
fn last_summary_lines_win_and_others_are_echoed() {
    let lines = [
        "Updating and loading repositories:",
        "fedora 100%",
        "Repositories loaded.",
        "Total size of inbound packages is 9 MiB. Need to download 9 MiB.",
        "After this operation, 11 MiB extra will be used (install 275 MiB, remove 264 MiB).",
        "note one",
        "Total size of inbound packages is 53 MiB. Need to download 2 KiB.",
        "After this operation, 5 MiB will be freed (install 264 MiB, remove 269 MiB).",
        "Operation aborted by the user.",
        "note two",
    ];
    let mut s = StderrState::new();
    let mut echoed = Vec::new();
    for l in lines {
        match s.line(l) {
            StderrAction::PrintAboveSpinner(t) | StderrAction::Print(t) => echoed.push(t),
            _ => {}
        }
    }
    assert_eq!(s.sizes().download, Some(2048));
    assert_eq!(s.sizes().net_disk, Some(-5 * 1048576));
    assert_eq!(echoed, ["fedora 100%", "note one", "note two"]);
    let mut s = StderrState::new();
    s.line("plain");
    assert_eq!(s.sizes().download, None);
    assert_eq!(s.sizes().net_disk, None);
}

#[test]
fn one_update_per_package_line() {
    let t = "Installing:\n foo x 1 r 1 B\nUpgrading:\n a x 2 r 3 KiB\n   replacing a x 0:1 q 1 B\n c y 5 s 1 B\n   replacing c y 4 t 1 B\nRemoving:\n bar\n";
    let ups = parse_update_lines(t).unwrap();
    assert_eq!(ups.len(), 2);
    let a = &ups[0];
    assert_eq!(
        (a.name.as_str(), a.arch.as_str(), a.new_version.as_str(), a.new_repo.as_str(), a.download_size, a.old_version.as_str(), a.old_repo.as_str()),
        ("a", "x", "2", "r", 3072, "1", "q")
    );
    // Not well formed: a package line without its `replacing` line.
    assert!(parse_update_lines("Upgrading:\n a x 2 r 3 B\n").is_err());
}

#[test]
fn larger_numbers_read_as_more_bytes() {
    let numbers = ["0", "0.5", "1", "1.5", "2", "1e3", "1023.99", "1024", "9007199254740993", "1e20"];
    for u in ["B", "KiB", "MiB", "GiB"] {
        for w in numbers.windows(2) {
            assert!(parse_dnf_size(w[0], u).unwrap() <= parse_dnf_size(w[1], u).unwrap(), "{w:?} {u}");
        }
    }
    for a in ["0", "7", "1023", "9007199254740993", "123456789"] {
        for (smaller, larger) in [("B", "KiB"), ("KiB", "MiB"), ("MiB", "GiB")] {
            let k = parse_dnf_size(a, smaller).unwrap();
            if let Some(expected) = k.checked_mul(1024) {
                assert_eq!(parse_dnf_size(a, larger).unwrap(), expected, "{a} {larger}");
            }
        }
    }
}

#[test]
fn one_heading_per_repository() {
    let ups = vec![
        update("b", "x", "1", "2", "r", "zz", 1),
        update("c", "x", "1", "2", "r", "aa", 1),
        update("a", "x", "1", "2", "r", "zz", 1),
        update("d", "x", "1", "2", "r", "aa", 1),
    ];
    let text = summary_text(&ups, false, GroupBy::Repository, &SizeInfo::default());
    let lines: Vec<&str> = text.lines().collect();
    assert_eq!(lines[2], "  aa");
    assert_eq!(lines[5], "");
    assert_eq!(lines[6], "  zz");
    assert_eq!(lines.iter().filter(|l| l.starts_with("  ") && !l.starts_with("    ")).count(), 2);
}

#[test]
fn rows_align_on_the_arrow_and_the_size() {
    let ups = vec![
        update("a", "x86_64", "1.0", "1.10", "r", "r", 1),
        update("longer-name", "noarch", "10.2.3", "10.2.4", "r", "s", 5 * 1048576),
    ];
    let text = summary_text(&ups, true, GroupBy::Flat, &SizeInfo::default());
    let rows: Vec<&str> = text.lines().skip(2).collect();
    let arrows: Vec<usize> = rows.iter().map(|r| r.find(" -> ").unwrap()).collect();
    assert_eq!(arrows[0], arrows[1]);
    let ends: Vec<usize> = rows.iter().map(|r| r.find("B  ").unwrap() + 1).collect();
    assert_eq!(ends[0], ends[1]);
}

#[test]
fn failing_check_is_not_up_to_date() {
    assert!(check_outcome(Some(0), false).is_ok());
    assert!(check_outcome(Some(1), true).is_ok());
    assert!(check_outcome(Some(0), true).is_ok());
    assert_eq!(check_outcome(Some(1), false).unwrap_err().code, Some(1));
    assert_eq!(check_outcome(None, false).unwrap_err().code, None);
}

#[test]
fn whole_numbers_in_any_form_scale_by_1024() {
    for a in ["5", "5.0", "5e0", "0.5e1", "2.5e1", "1.0e3", "-3", "-3.0", "1024.000"] {
        for (smaller, larger) in [("B", "KiB"), ("KiB", "MiB"), ("MiB", "GiB")] {
            let k = parse_dnf_size(a, smaller).unwrap();
            assert_eq!(parse_dnf_size(a, larger).unwrap(), k * 1024, "{a} {larger}");
        }
    }
}
