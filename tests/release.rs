use giu::release::{list_release_tags, next_version, release_tag_name, ReleaseTag, TagError};

fn names(v: &[ReleaseTag]) -> Vec<String> {
    v.iter().map(|t| t.name.clone()).collect()
}

#[test]
fn next_version_of_no_tags_is_zero() {
    assert_eq!(next_version(&Vec::new()), 0);
}

#[test]
fn next_version_follows_highest_tag() {
    let tags = match list_release_tags("rel-3\nrel-2\nrel-1\n", "rel") {
        Ok(v) => v,
        Err(_) => panic!("tags should parse"),
    };
    assert_eq!(names(&tags), vec!["rel-3", "rel-2", "rel-1"]);
    assert_eq!(next_version(&tags), 4);
}

#[test]
fn tags_are_sorted_highest_first_and_filtered_by_line() {
    let listing = "1.0-2\n1.0-10\n1.1-7\n1.0-0\nother\n1.0-10x\n";
    match list_release_tags(listing, "1.0") {
        Err(TagError::BadPatchNumber(t)) => assert_eq!(t, "1.0-10x"),
        Ok(_) => panic!("1.0-10x has no patch number"),
    }
    let tags = match list_release_tags("1.0-2\n1.0-10\n1.1-7\n1.0-0\nother\n", "1.0") {
        Ok(v) => v,
        Err(_) => panic!("tags should parse"),
    };
    assert_eq!(names(&tags), vec!["1.0-10", "1.0-2", "1.0-0"]);
    let patches: Vec<u32> = tags.iter().map(|t| t.patch).collect();
    assert_eq!(patches, vec![10, 2, 0]);
    assert_eq!(next_version(&tags), 11);
}

#[test]
fn tags_of_a_line_with_dashes() {
    let tags = match list_release_tags("a-b-4\na-b-5\na-4\n", "a-b") {
        Ok(v) => v,
        Err(_) => panic!("tags should parse"),
    };
    assert_eq!(names(&tags), vec!["a-b-5", "a-b-4"]);
}

#[test]
fn empty_listing_has_no_tags() {
    match list_release_tags("", "rel") {
        Ok(v) => assert!(v.is_empty()),
        Err(_) => panic!("empty listing is no error"),
    }
}

#[test]
fn patch_number_that_overflows_is_an_error() {
    match list_release_tags("rel-4294967296\n", "rel") {
        Err(TagError::BadPatchNumber(t)) => assert_eq!(t, "rel-4294967296"),
        Ok(_) => panic!("does not fit in u32"),
    }
    match list_release_tags("rel-4294967295\n", "rel") {
        Ok(v) => assert_eq!(v[0].patch, 4294967295),
        Err(_) => panic!("fits in u32"),
    }
}

#[test]
fn release_tag_name_joins_line_and_version() {
    assert_eq!(release_tag_name("1.0", 12), "1.0-12");
    assert_eq!(release_tag_name("rel", 0), "rel-0");
}

#[test]
fn next_version_exceeds_every_listed_patch() {
    let tags = match list_release_tags("v-7\nv-12\nv-3\nv-12\n", "v") {
        Ok(v) => v,
        Err(_) => panic!("tags should parse"),
    };
    assert_eq!(names(&tags), vec!["v-12", "v-12", "v-7", "v-3"]);
    let next = next_version(&tags);
    assert_eq!(next, 13);
    for t in tags.iter() {
        assert!(next > t.patch as u64);
    }
}
