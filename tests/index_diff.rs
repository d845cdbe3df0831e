use giu::codec::{decode, encode};
use giu::diff::diff;
use giu::index::ChecksumIndex;

fn index_of(pairs: &[(&str, &str)]) -> ChecksumIndex {
    let mut idx = ChecksumIndex::new();
    for (n, c) in pairs {
        idx.insert(n.to_string(), c.to_string());
    }
    idx
}

fn pairs_of(idx: &ChecksumIndex) -> Vec<(String, String)> {
    let mut v = Vec::new();
    for i in 0..idx.len() {
        let r = idx.record(i);
        v.push((r.name.clone(), r.checksum.clone()));
    }
    v
}

fn owned(pairs: &[(&str, &str)]) -> Vec<(String, String)> {
    pairs.iter().map(|(a, b)| (a.to_string(), b.to_string())).collect()
}

#[test]
fn diff_reports_changed_and_new_files() {
    let old = index_of(&[("a.bundle", "AA")]);
    let new = index_of(&[("a.bundle", "BB"), ("b.bundle", "CC")]);
    let d = diff(&old, &new);
    assert_eq!(pairs_of(&d), owned(&[("a.bundle", "BB"), ("b.bundle", "CC")]));
}

#[test]
fn diff_against_itself_is_empty() {
    let idx = index_of(&[("a.bundle", "AA"), ("b.bundle", "BB"), ("c.bundle", "CC")]);
    assert_eq!(diff(&idx, &idx).len(), 0);
}

#[test]
fn diff_never_reports_removed_files() {
    let old = index_of(&[("a.bundle", "AA"), ("gone.bundle", "DD")]);
    let new = index_of(&[("a.bundle", "AA"), ("b.bundle", "BB")]);
    let d = diff(&old, &new);
    assert_eq!(pairs_of(&d), owned(&[("b.bundle", "BB")]));
    for (name, _) in pairs_of(&d) {
        assert!(new.get(&name).is_some());
    }
}

#[test]
fn diff_of_empty_old_is_all_of_new() {
    let old = ChecksumIndex::new();
    let new = index_of(&[("x.bundle", "01"), ("y.bundle", "02")]);
    assert_eq!(pairs_of(&diff(&old, &new)), pairs_of(&new));
}

#[test]
fn insert_replaces_checksum_in_place() {
    let idx = index_of(&[("a", "1"), ("b", "2"), ("a", "3")]);
    assert_eq!(pairs_of(&idx), owned(&[("a", "3"), ("b", "2")]));
    assert_eq!(idx.get(&"a".to_string()), Some(&"3".to_string()));
    assert_eq!(idx.get(&"c".to_string()), None);
}

#[test]
fn encode_writes_one_line_per_record() {
    let idx = index_of(&[("a.bundle", "0D4A1185"), ("b.bundle", "00000000")]);
    assert_eq!(encode(&idx), "a.bundle,0D4A1185\nb.bundle,00000000\n");
    assert_eq!(encode(&ChecksumIndex::new()), "");
}

#[test]
fn decode_of_encode_gives_the_index_back() {
    let idx = index_of(&[("a.bundle", "0D4A1185"), ("b.bundle", "3610A686"), ("c.bundle", "00000000")]);
    let back = decode(&encode(&idx));
    assert_eq!(pairs_of(&back), pairs_of(&idx));
}

#[test]
fn decode_skips_lines_without_exactly_one_comma() {
    let text = "a.bundle,AA\n\nno comma here\nx,y,z\n b.bundle , BB \r\n\n";
    let idx = decode(text);
    assert_eq!(pairs_of(&idx), owned(&[("a.bundle", "AA"), ("b.bundle", "BB")]));
}

#[test]
fn decode_last_line_without_line_feed() {
    let idx = decode("a,1\nb,2");
    assert_eq!(pairs_of(&idx), owned(&[("a", "1"), ("b", "2")]));
}

#[test]
fn decode_later_record_replaces_earlier() {
    let idx = decode("a,1\nb,2\na,3\n");
    assert_eq!(pairs_of(&idx), owned(&[("a", "3"), ("b", "2")]));
}

#[test]
fn decode_empty_text() {
    assert_eq!(decode("").len(), 0);
}

#[test]
fn decode_trims_unicode_whitespace() {
    let idx = decode("\u{a0}a,1\u{3000}\n\u{2003}b\u{85} ,\t2\u{2029}\n");
    assert_eq!(pairs_of(&idx), owned(&[("a", "1"), ("b", "2")]));
}
