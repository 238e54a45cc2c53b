use std::collections::HashSet;
use std::path::{Path, PathBuf};

use occ_secure_exports::paths::{claim_unique, plaintext_file_name, safe_dest_path};
use occ_secure_exports::sanitize::{long_path, sanitize_segment};

#[test]
fn strips_age_and_keeps_last_segment() {
    assert_eq!(plaintext_file_name("a/b/log.json.age"), "log.json");
    assert_eq!(plaintext_file_name("report.age"), "report");
    assert_eq!(plaintext_file_name("plain.json"), "plain.json");
}

#[test]
fn resists_path_traversal() {
    // Backslash and ../ segments must never escape the destination dir.
    assert_eq!(plaintext_file_name("a/..\\..\\evil.age"), "evil");
    assert_eq!(plaintext_file_name("../../etc/passwd.age"), "passwd");
    assert_eq!(plaintext_file_name(".."), "download");
    assert_eq!(plaintext_file_name("dir/"), "dir");
    assert_eq!(plaintext_file_name(""), "download");
}

#[test]
fn safe_dest_path_preserves_structure() {
    let base = Path::new("/dest");
    assert_eq!(
        safe_dest_path(base, "backups/2026-06-20/db-snapshot.sql"),
        Path::new("/dest/backups/2026-06-20/db-snapshot.sql"),
    );
    assert_eq!(
        safe_dest_path(base, "report.json"),
        Path::new("/dest/report.json"),
    );
}

#[test]
fn safe_dest_path_cannot_escape() {
    let base = Path::new("/dest");
    // .. and . segments are dropped, so the result stays under /dest.
    assert_eq!(
        safe_dest_path(base, "../../etc/passwd"),
        Path::new("/dest/etc/passwd"),
    );
    assert_eq!(
        safe_dest_path(base, "a/../../b/./c"),
        Path::new("/dest/a/b/c"),
    );
    assert_eq!(safe_dest_path(base, "x\\..\\y"), Path::new("/dest/x/y"),);
    // Nothing usable -> safe fallback.
    assert_eq!(safe_dest_path(base, "../.."), Path::new("/dest/download"));
    assert_eq!(safe_dest_path(base, ""), Path::new("/dest/download"));
}

#[test]
fn sanitize_segment_is_a_noop_off_windows() {
    // S3 keys with `:` (ISO timestamps) etc. stay faithful on POSIX hosts.
    assert_eq!(
        sanitize_segment("2026-06-20T12:30:00Z", false),
        "2026-06-20T12:30:00Z"
    );
    assert_eq!(sanitize_segment("a*b?c", false), "a*b?c");
}

#[test]
fn sanitize_segment_cleans_windows_illegal_chars() {
    // The `:` in an ISO-8601 prefix is the common real-world breaker.
    assert_eq!(
        sanitize_segment("2026-06-20T12:30:00Z", true),
        "2026-06-20T12_30_00Z"
    );
    assert_eq!(
        sanitize_segment(r#"a<b>c:d"e|f?g*h"#, true),
        "a_b_c_d_e_f_g_h"
    );
    // Control characters are replaced too.
    assert_eq!(sanitize_segment("a\u{0007}b", true), "a_b");
}

#[test]
fn sanitize_segment_strips_trailing_dots_and_spaces_on_windows() {
    assert_eq!(sanitize_segment("name. ", true), "name");
    assert_eq!(sanitize_segment("data.", true), "data");
    // A segment that becomes empty falls back to a placeholder.
    assert_eq!(sanitize_segment("...", true), "_");
}

#[test]
fn sanitize_segment_neutralizes_reserved_names_on_windows() {
    assert_eq!(sanitize_segment("CON", true), "_CON");
    assert_eq!(sanitize_segment("nul.json", true), "_nul.json");
    assert_eq!(sanitize_segment("COM1", true), "_COM1");
    assert_eq!(sanitize_segment("LPT9.txt", true), "_LPT9.txt");
    // COM0 / a longer name are NOT reserved.
    assert_eq!(sanitize_segment("COM0", true), "COM0");
    assert_eq!(sanitize_segment("console", true), "console");
}

#[test]
fn long_path_adds_verbatim_prefix_only_on_windows_drive_paths() {
    assert_eq!(
        long_path(r"C:\Users\me\f.txt", true),
        r"\\?\C:\Users\me\f.txt"
    );
    // Forward slashes from a joined path are normalized to backslashes.
    assert_eq!(
        long_path("C:/Users/me/f.txt", true),
        r"\\?\C:\Users\me\f.txt"
    );
    // UNC, already-verbatim, relative, and non-Windows are left untouched.
    assert_eq!(long_path(r"\\server\share\f", true), r"\\server\share\f");
    assert_eq!(long_path(r"\\?\C:\already", true), r"\\?\C:\already");
    assert_eq!(long_path("relative/path", true), "relative/path");
    assert_eq!(long_path(r"C:\Users\me\f.txt", false), r"C:\Users\me\f.txt");
}

#[test]
fn claim_unique_disambiguates_collisions() {
    let mut claimed = HashSet::new();
    let p = |s: &str| PathBuf::from(s);
    // First claim is kept as-is.
    assert_eq!(
        claim_unique(p("/d/Report.json"), true, &mut claimed),
        p("/d/Report.json")
    );
    // Case-insensitive collision -> suffixed.
    assert_eq!(
        claim_unique(p("/d/report.json"), true, &mut claimed),
        p("/d/report (2).json"),
    );
    // A third collision bumps the counter.
    assert_eq!(
        claim_unique(p("/d/REPORT.json"), true, &mut claimed),
        p("/d/REPORT (3).json"),
    );
    // No extension -> suffix appended to the whole name.
    let mut c2 = HashSet::new();
    assert_eq!(claim_unique(p("/d/data"), true, &mut c2), p("/d/data"));
    assert_eq!(claim_unique(p("/d/data"), true, &mut c2), p("/d/data (2)"));
}

#[test]
fn claim_unique_case_sensitive_keeps_distinct_case() {
    // On a case-sensitive filesystem, different case = different file.
    let mut claimed = HashSet::new();
    let p = |s: &str| PathBuf::from(s);
    assert_eq!(
        claim_unique(p("/d/A.txt"), false, &mut claimed),
        p("/d/A.txt")
    );
    assert_eq!(
        claim_unique(p("/d/a.txt"), false, &mut claimed),
        p("/d/a.txt")
    );
}
