use std::path::{Path, PathBuf};

use occ_secure_exports::transfer::{
    copy_step, is_age_key, plan_download, size_hint_of, temp_file_name, temp_path, CopyStep,
    COPY_CHUNK_LEN,
};

#[test]
fn age_objects_are_detected_in_any_ascii_case() {
    assert!(is_age_key("a/b/log.json.age"));
    assert!(is_age_key("x.AGE"));
    assert!(is_age_key("x.AgE"));
    assert!(is_age_key(".age"));
    assert!(!is_age_key("age"));
    assert!(!is_age_key("x.agex"));
    assert!(!is_age_key("x_age"));
    assert!(!is_age_key(""));
}

#[test]
fn size_hint_is_never_negative() {
    assert_eq!(size_hint_of(Some(12)), 12);
    assert_eq!(size_hint_of(Some(0)), 0);
    assert_eq!(size_hint_of(Some(-5)), 0);
    assert_eq!(size_hint_of(None), 0);
    assert_eq!(size_hint_of(Some(i64::MAX)), i64::MAX as u64);
}

#[test]
fn temp_names_are_hidden_numbered_siblings() {
    assert_eq!(temp_file_name("report.json", 42), ".report.json.occ-part42");
    assert_eq!(temp_file_name("x", 0), ".x.occ-part0");
    assert_eq!(temp_file_name("x", u64::MAX), ".x.occ-part18446744073709551615");
    assert_ne!(temp_file_name("x", 1), temp_file_name("x", 10));
    assert_eq!(temp_path(Path::new("/d/x.bin"), 7), PathBuf::from("/d/.x.bin.occ-part7"));
    assert_eq!(temp_path(Path::new("/"), 3), PathBuf::from("/.download.occ-part3"));
}

#[test]
fn download_plan_collects_the_decisions() {
    let plan = plan_download("dir/data.csv.AGE", Path::new("/out/data.csv"), Some(-1), 5);
    assert_eq!(plan.total, 0);
    assert!(plan.decrypt);
    assert_eq!(plan.temp_path, PathBuf::from("/out/.data.csv.occ-part5"));
    let plain = plan_download("dir/data.csv", Path::new("/out/data.csv"), Some(2048), 6);
    assert_eq!(plain.total, 2048);
    assert!(!plain.decrypt);
}

#[test]
fn copy_steps_accumulate_and_finish() {
    assert_eq!(COPY_CHUNK_LEN, 64 * 1024);
    let mut total: u64 = 0;
    let mut reported = Vec::new();
    for read in [10usize, 65536, 1] {
        match copy_step(total, read) {
            CopyStep::Write { len, total: t } => {
                assert_eq!(len, read);
                total = t;
                reported.push(t);
            }
            CopyStep::Finish { .. } => panic!("a non-empty read finished the copy"),
        }
    }
    assert_eq!(reported, vec![10, 65546, 65547]);
    assert!(matches!(copy_step(total, 0), CopyStep::Finish { total: 65547 }));
}
