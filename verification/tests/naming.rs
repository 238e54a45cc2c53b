use std::collections::HashSet;
use std::path::{Path, PathBuf};

use occ_secure_exports::naming::{plaintext_file_name_for, safe_dest_segments};
use occ_secure_exports::paths::{
    claim_unique, fs_path, profiles_path, safe_dest_path_for, unique_dest_path, unique_dest_paths,
};
use occ_secure_exports::sanitize::{is_windows_reserved, long_path, sanitize_segment};

#[test]
fn plaintext_name_on_windows_is_sanitized() {
    assert_eq!(plaintext_file_name_for("exports/CON.age", true), "_CON");
    assert_eq!(plaintext_file_name_for("exports/CON.age", false), "CON");
    assert_eq!(plaintext_file_name_for("a/12:30.json.age", true), "12_30.json");
    assert_eq!(plaintext_file_name_for("x/foo. ", true), "foo");
}

#[test]
fn plaintext_name_edge_cases() {
    // Only separators: the key itself is used, then emptied, then replaced.
    assert_eq!(plaintext_file_name_for("///", false), "download");
    // White space around a dot-dot segment does not smuggle it through.
    assert_eq!(plaintext_file_name_for("a/ .. /", false), "download");
    // Only one trailing `.age` is stripped, case-sensitively.
    assert_eq!(plaintext_file_name_for("b.age.age", false), "b.age");
    assert_eq!(plaintext_file_name_for("b.AGE", false), "b.AGE");
    assert_eq!(plaintext_file_name_for("  spaced name.txt  ", false), "spaced name.txt");
}

#[test]
fn dest_segments_on_both_hosts() {
    assert_eq!(safe_dest_segments("a/CON/b:c", true), vec!["a", "_CON", "b_c"]);
    assert_eq!(safe_dest_segments("a/CON/b:c", false), vec!["a", "CON", "b:c"]);
    assert_eq!(safe_dest_segments("x/.../y", true), vec!["x", "_", "y"]);
    assert_eq!(safe_dest_segments(" / . /\\", false), vec!["download"]);
    assert_eq!(safe_dest_segments("..\\..\\secret", false), vec!["secret"]);
}

#[test]
fn dest_path_for_windows_host() {
    assert_eq!(
        safe_dest_path_for(Path::new("/dest"), "logs/12:00/a.txt", true),
        Path::new("/dest/logs/12_00/a.txt"),
    );
}

#[test]
fn reserved_names_are_matched_case_insensitively() {
    assert!(is_windows_reserved("com1"));
    assert!(is_windows_reserved("Aux"));
    assert!(is_windows_reserved("lPt9"));
    assert!(!is_windows_reserved("COM10"));
    assert!(!is_windows_reserved("LPT0"));
    assert!(!is_windows_reserved("CONSOLE"));
    assert!(!is_windows_reserved(""));
}

#[test]
fn sanitizing_twice_changes_nothing() {
    for s in ["a<b", "CON", "...", "name. ", "nul.json", "x\u{1}y", "plain"] {
        let once = sanitize_segment(s, true);
        assert_eq!(sanitize_segment(&once, true), once);
    }
}

#[test]
fn long_path_twice_changes_nothing() {
    let once = long_path("d:/deep/dir/file", true).into_owned();
    assert_eq!(once, r"\\?\d:\deep\dir\file");
    assert_eq!(long_path(&once, true), once.as_str());
    // Too short or not a drive letter: untouched.
    assert_eq!(long_path("C:", true), "C:");
    assert_eq!(long_path("1:/x", true), "1:/x");
}

#[test]
fn claim_unique_without_parent_or_stem() {
    let mut claimed = HashSet::new();
    assert_eq!(claim_unique(PathBuf::from("/"), false, &mut claimed), PathBuf::from("/"));
    assert_eq!(
        claim_unique(PathBuf::from("/"), false, &mut claimed),
        PathBuf::from("download (2)")
    );
    assert_eq!(claimed.len(), 2);
}

#[test]
fn claim_unique_skips_taken_numbers() {
    let mut claimed = HashSet::new();
    claimed.insert("/d/a.txt".to_string());
    claimed.insert("/d/a (2).txt".to_string());
    assert_eq!(
        claim_unique(PathBuf::from("/d/a.txt"), false, &mut claimed),
        PathBuf::from("/d/a (3).txt")
    );
    assert!(claimed.contains("/d/a (3).txt"));
    // Case-insensitive keys are lower-cased before they are stored.
    let mut ci = HashSet::new();
    claim_unique(PathBuf::from("/D/Ä.TXT"), true, &mut ci);
    assert!(ci.contains("/d/ä.txt"));
}

#[test]
fn unique_dest_path_deduplicates_a_batch() {
    let mut claimed = HashSet::new();
    let base = Path::new("/dest");
    assert_eq!(
        unique_dest_path(base, "x/Report.json", true, &mut claimed),
        Path::new("/dest/x/Report.json")
    );
    assert_eq!(
        unique_dest_path(base, "x//./report.json", true, &mut claimed),
        Path::new("/dest/x/report (2).json")
    );
    assert_eq!(
        unique_dest_path(base, "x/REPORT.json", false, &mut claimed),
        Path::new("/dest/x/REPORT.json")
    );
}

#[test]
fn fs_path_is_unchanged_off_windows() {
    assert_eq!(fs_path(Path::new("/a/b c/d")), PathBuf::from("/a/b c/d"));
}

#[test]
fn profiles_file_lives_in_config_dir() {
    assert_eq!(profiles_path(Path::new("/cfg")), PathBuf::from("/cfg/profiles.json"));
}

#[test]
fn a_batch_gets_distinct_destinations() {
    let rels = vec![
        "x/Report.json".to_string(),
        "x/report.json".to_string(),
        "x\\REPORT.json".to_string(),
        "../../etc/passwd".to_string(),
        "etc/passwd".to_string(),
    ];
    let out = unique_dest_paths(Path::new("/dest"), &rels, true);
    assert_eq!(
        out,
        vec![
            PathBuf::from("/dest/x/Report.json"),
            PathBuf::from("/dest/x/report (2).json"),
            PathBuf::from("/dest/x/REPORT (3).json"),
            PathBuf::from("/dest/etc/passwd"),
            PathBuf::from("/dest/etc/passwd (2)"),
        ]
    );
}

#[test]
fn both_separators_and_composition_give_the_same_destination() {
    let base = Path::new("/dest");
    assert_eq!(safe_dest_path_for(base, "a\\b\\c", false), safe_dest_path_for(base, "a/b/c", false));
    let inner = safe_dest_path_for(base, "a/./x", false);
    assert_eq!(safe_dest_path_for(base, "a/./x/b/c", false), safe_dest_path_for(&inner, "b/c", false));
}
