use giu::manifest::{build_manifest, format_size, full_archive_name, patch_archive_name, PlatformManifest};
use giu::numeric::decimal_string;

#[test]
fn format_size_in_mebibytes() {
    assert_eq!(format_size(5242880), "5.00 M");
    assert_eq!(format_size(1048576), "1.00 M");
    assert_eq!(format_size(1572864), "1.50 M");
}

#[test]
fn format_size_in_kibibytes() {
    assert_eq!(format_size(5120), "5.00 K");
    assert_eq!(format_size(1), "0.00 K");
    assert_eq!(format_size(0), "0.00 K");
    assert_eq!(format_size(1536), "1.50 K");
}

#[test]
fn format_size_threshold() {
    assert_eq!(format_size(10485), "10.24 K");
    assert_eq!(format_size(10486), "0.01 M");
}

#[test]
fn format_size_rounds_ties_to_even() {
    // 131072 bytes is exactly 0.125 MiB, 2621440 exactly 2.5 MiB.
    assert_eq!(format_size(131072), "0.12 M");
    assert_eq!(format_size(393216), "0.38 M");
    assert_eq!(format_size(2621440), "2.50 M");
}

#[test]
fn decimal_numerals() {
    assert_eq!(decimal_string(0), "0");
    assert_eq!(decimal_string(7), "7");
    assert_eq!(decimal_string(1200), "1200");
    assert_eq!(decimal_string(18446744073709551615), "18446744073709551615");
}

#[test]
fn archive_names() {
    assert_eq!(full_archive_name(4), "4-full.zip");
    assert_eq!(patch_archive_name("rel-3"), "rel-3.zip");
}

#[test]
fn manifest_lists_patches_in_order_added() {
    let mut m = PlatformManifest::new(4, 5242880);
    assert_eq!(m.ver, "4");
    assert_eq!(m.down, "4-full.zip");
    assert_eq!(m.size, "5.00 M");
    m.add_patch("rel-3", 5120);
    m.add_patch("rel-2", 1048576);
    assert_eq!(m.vers, vec!["rel-3", "rel-2"]);
    assert_eq!(m.downs, vec!["rel-3.zip", "rel-2.zip"]);
    assert_eq!(m.sizes, vec!["5.00 K", "1.00 M"]);
}

#[test]
fn format_size_of_largest_size() {
    assert_eq!(format_size(u64::MAX), "17592186044416.00 M");
}

#[test]
fn build_manifest_has_one_entry_per_patch_in_order() {
    let patches = vec![("rel-3".to_string(), 5120u64), ("rel-2".to_string(), 5242880u64), ("rel-1".to_string(), 1u64)];
    let m = build_manifest(4, 10486, &patches);
    assert_eq!(m.ver, "4");
    assert_eq!(m.down, "4-full.zip");
    assert_eq!(m.size, "0.01 M");
    assert_eq!(m.vers, vec!["rel-3", "rel-2", "rel-1"]);
    assert_eq!(m.downs, vec!["rel-3.zip", "rel-2.zip", "rel-1.zip"]);
    assert_eq!(m.sizes, vec!["5.00 K", "5.00 M", "0.00 K"]);
    let empty = build_manifest(0, 0, &Vec::new());
    assert!(empty.vers.is_empty() && empty.downs.is_empty() && empty.sizes.is_empty());
    assert_eq!(empty.down, "0-full.zip");
}
