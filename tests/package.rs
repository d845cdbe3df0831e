use giu::index::ChecksumIndex;
use giu::package::{
    diff_list_name, full_entries, has_drive_prefix, is_indexed, name_escapes_root, name_is_root,
    patch_entries, plan_archive,
    ArchiveMember, EntryKind, PackageError,
};

fn member_names(v: &[ArchiveMember]) -> Vec<(bool, String)> {
    v.iter()
        .map(|m| match m {
            ArchiveMember::File(n) => (false, n.clone()),
            ArchiveMember::Directory(n) => (true, n.clone()),
        })
        .collect()
}

#[test]
fn plan_keeps_order_and_skips_root() {
    let names = vec!["x.txt".to_string(), "".to_string(), "sub".to_string(), "sub/y.txt".to_string()];
    let kinds = vec![EntryKind::File, EntryKind::Directory, EntryKind::Directory, EntryKind::File];
    match plan_archive(&names, &kinds) {
        Ok(v) => assert_eq!(
            member_names(&v),
            vec![(false, "x.txt".to_string()), (true, "sub".to_string()), (false, "sub/y.txt".to_string())]
        ),
        Err(_) => panic!("all entries exist"),
    }
}

#[test]
fn plan_of_single_file() {
    match plan_archive(&vec!["x.txt".to_string()], &vec![EntryKind::File]) {
        Ok(v) => assert_eq!(member_names(&v), vec![(false, "x.txt".to_string())]),
        Err(_) => panic!("x.txt exists"),
    }
}

#[test]
fn plan_fails_on_missing_entry() {
    let names = vec!["a".to_string(), "b".to_string()];
    let kinds = vec![EntryKind::File, EntryKind::Missing];
    match plan_archive(&names, &kinds) {
        Err(PackageError::MissingEntry(n)) => assert_eq!(n, "b"),
        _ => panic!("b is missing"),
    }
}

#[test]
fn plan_accepts_entries_that_stay_inside() {
    let names = vec!["a/../b.bundle".to_string(), "x:y.bundle".to_string()];
    match plan_archive(&names, &vec![EntryKind::File, EntryKind::File]) {
        Ok(v) => assert_eq!(
            member_names(&v),
            vec![(false, "a/../b.bundle".to_string()), (false, "x:y.bundle".to_string())]
        ),
        Err(_) => panic!("both stay inside the root"),
    }
}

#[test]
fn plan_fails_on_escaping_entry() {
    let names = vec!["../secret".to_string()];
    match plan_archive(&names, &vec![EntryKind::File]) {
        Err(PackageError::EscapesRoot(n)) => assert_eq!(n, "../secret"),
        _ => panic!("escapes the root"),
    }
}

#[test]
fn escaping_names() {
    assert!(name_escapes_root("/etc/passwd"));
    assert!(name_escapes_root("\\server\\x"));
    assert!(name_escapes_root("a/../../b"));
    assert!(name_escapes_root(".."));
    assert!(name_escapes_root("./.."));
    assert!(name_escapes_root("a/./../.."));
    assert!(name_escapes_root("a//../../b"));
    assert!(!name_escapes_root("a/../b"));
    assert!(!name_escapes_root("a/b/../../c"));
    assert!(!name_escapes_root("x:y.bundle"));
    assert!(!name_escapes_root("a..b"));
    assert!(!name_escapes_root("a/..b/c"));
    assert!(!name_escapes_root("x.txt"));
    assert!(!name_escapes_root(""));
}

#[test]
fn package_entry_lists() {
    let mut diff = ChecksumIndex::new();
    diff.insert("a.bundle".to_string(), "BB".to_string());
    diff.insert("b.bundle".to_string(), "CC".to_string());
    assert_eq!(diff_list_name("rel-1"), "diff-rel-1.csv");
    assert_eq!(
        patch_entries(&diff, "rel-1", "1.0"),
        vec!["a.bundle", "b.bundle", "diff-rel-1.csv", "catalog_1.0.json", "catalog_1.0.hash", "Version.txt"]
    );
    assert_eq!(
        full_entries(&diff, "1.0"),
        vec!["a.bundle", "b.bundle", "catalog_1.0.json", "catalog_1.0.hash", "Version.txt"]
    );
}

#[test]
fn indexed_entries_by_extension() {
    assert!(is_indexed("a.bundle", false, "bundle"));
    assert!(is_indexed("a.b.bundle", false, "bundle"));
    assert!(!is_indexed("a.bundle", true, "bundle"));
    assert!(!is_indexed("a.json", false, "bundle"));
    assert!(!is_indexed("bundle", false, "bundle"));
    assert!(!is_indexed(".bundle", false, "bundle"));
    assert!(!is_indexed("a.bundlex", false, "bundle"));
    assert!(!is_indexed("file-hash.csv", false, "bundle"));
}

#[test]
fn entry_naming_the_root_adds_no_member() {
    let names = vec![".".to_string(), "./".to_string(), "sub".to_string(), "./x.txt".to_string()];
    let kinds = vec![EntryKind::Directory, EntryKind::Directory, EntryKind::Directory, EntryKind::File];
    match plan_archive(&names, &kinds) {
        Ok(v) => assert_eq!(member_names(&v), vec![(true, "sub".to_string()), (false, "./x.txt".to_string())]),
        Err(_) => panic!("all entries exist"),
    }
}

#[test]
fn root_names() {
    assert!(name_is_root(""));
    assert!(name_is_root("."));
    assert!(name_is_root("./"));
    assert!(name_is_root("././/."));
    assert!(!name_is_root(".."));
    assert!(!name_is_root("..."));
    assert!(!name_is_root("a"));
    assert!(!name_is_root("./a"));
}

#[test]
fn drive_prefixes() {
    assert!(has_drive_prefix("C:/x"));
    assert!(has_drive_prefix("d:"));
    assert!(!has_drive_prefix("x"));
    assert!(!has_drive_prefix("1:y"));
    assert!(!has_drive_prefix("ab:c"));
}
