//! Release tags `<line>-<patch>` and the next patch version of a line.
use vstd::prelude::*;
use crate::numeric::{decimal_of, decimal_string, parse_u32, u32_numeral};
use crate::text::{chars_of, lines, lines_of, slice_vec, string_of};

verus! {

/// A release tag of a release line, with its patch number.
pub struct ReleaseTag {
    pub name: String,
    pub patch: u32,
}

/// Why a tag listing could not be read.
pub enum TagError {
    /// A tag of the release line whose text after its last `-` is no `u32`
    /// numeral.
    BadPatchNumber(String),
}

/// The text after the last `-` of `tag` (all of it if there is none).
pub open spec fn patch_text(tag: Seq<char>) -> Seq<char>
    decreases tag.len(),
{
    if tag.len() == 0 {
        tag
    } else if tag.last() == '-' {
        seq![]
    } else {
        patch_text(tag.drop_last()).push(tag.last())
    }
}

/// The patch number of `tag`, if its patch text is a `u32` numeral.
pub open spec fn patch_number(tag: Seq<char>) -> Option<u32> {
    u32_numeral(patch_text(tag))
}

/// `tag` belongs to release line `line`: it starts with `line` and a `-`.
pub open spec fn in_line(line: Seq<char>, tag: Seq<char>) -> bool {
    (line + seq!['-']).is_prefix_of(tag)
}

/// The tags of `listing` (one per line) that belong to `line`, in order.
pub open spec fn line_tags(listing: Seq<char>, line: Seq<char>) -> Seq<Seq<char>> {
    lines_of(listing).filter(|t: Seq<char>| in_line(line, t))
}

/// Patch numbers never increase along `v`.
pub open spec fn newest_first(v: Seq<ReleaseTag>) -> bool {
    forall|i: int, j: int| 0 <= i < j < v.len() ==> v[i].patch >= v[j].patch
}

/// The position of the text after the last `-` of `t`.
fn patch_start(t: &[char]) -> (r: usize)
    ensures
        r <= t@.len(),
        t@.subrange(r as int, t@.len() as int) == patch_text(t@),
{
    let mut k = t.len();
    assert(t@.subrange(0, k as int) =~= t@);
    assert(patch_text(t@) + t@.subrange(k as int, t@.len() as int) =~= patch_text(t@));
    while k > 0 && t[k - 1] != '-'
        invariant
            k <= t@.len(),
            patch_text(t@) == patch_text(t@.subrange(0, k as int)) + t@.subrange(k as int, t@.len() as int),
        decreases k,
    {
        let ghost u = t@.subrange(0, k as int);
        assert(u.drop_last() =~= t@.subrange(0, k - 1));
        assert(patch_text(u.drop_last()).push(u.last()) + t@.subrange(k as int, t@.len() as int) =~= patch_text(t@.subrange(0, k - 1)) + t@.subrange(k - 1, t@.len() as int));
        k -= 1;
    }
    proof {
        let u = t@.subrange(0, k as int);
        if k == 0 {
            assert(u =~= seq![]);
        }
        assert(patch_text(u) =~= seq![]);
        assert(seq![] + t@.subrange(k as int, t@.len() as int) =~= t@.subrange(k as int, t@.len() as int));
    }
    k
}

/// `t` starts with `p`.
fn starts_with(t: &[char], p: &[char]) -> (r: bool)
    ensures
        r == p@.is_prefix_of(t@),
{
    if p.len() > t.len() {
        return false;
    }
    let mut i: usize = 0;
    while i < p.len()
        invariant
            p@.len() <= t@.len(),
            i <= p@.len(),
            forall|j: int| 0 <= j < i ==> p@[j] == t@[j],
        decreases p@.len() - i,
    {
        if p[i] != t[i] {
            return false;
        }
        i += 1;
    }
    true
}

/// The tags of release line `release_line` in `listing` (one tag per line),
/// ordered by patch number, highest first. Fails on the first tag of the line whose patch text is no `u32`
/// numeral.
pub fn list_release_tags(listing: &str, release_line: &str) -> (r: Result<Vec<ReleaseTag>, TagError>)
    ensures
        r is Ok <==> forall|i: int| 0 <= i < line_tags(listing@, release_line@).len()
            ==> #[trigger] patch_number(line_tags(listing@, release_line@)[i]) is Some,
        r matches Ok(v) ==> {
            &&& v@.map_values(|t: ReleaseTag| t.name@).to_multiset()
                == line_tags(listing@, release_line@).to_multiset()
            &&& forall|i: int| 0 <= i < v@.len() ==> patch_number(#[trigger] v@[i].name@) == Some(v@[i].patch)
            &&& newest_first(v@)
        },
        r matches Err(TagError::BadPatchNumber(t)) ==> line_tags(listing@, release_line@).contains(t@)
            && patch_number(t@) is None,
{
    let ghost pred = |t: Seq<char>| in_line(release_line@, t);
    let ghost m = line_tags(listing@, release_line@);
    let mut prefix = chars_of(release_line);
    prefix.push('-');
    let cs = chars_of(listing);
    let ls = lines(cs.as_slice());
    let ghost lv = ls.deep_view();
    let mut v: Vec<ReleaseTag> = Vec::new();
    let mut i: usize = 0;
    proof {
        lv.subrange(0, 0).lemma_filter_len(pred);
        assert(lv.subrange(0, 0).filter(pred) =~= v@.map_values(|t: ReleaseTag| t.name@));
    }
    while i < ls.len()
        invariant
            pred == (|t: Seq<char>| in_line(release_line@, t)),
            m == lines_of(listing@).filter(pred),
            prefix@ == release_line@ + seq!['-'],
            lv == ls.deep_view(),
            lv == lines_of(listing@),
            i <= lv.len(),
            v@.map_values(|t: ReleaseTag| t.name@).to_multiset() == lv.subrange(0, i as int).filter(pred).to_multiset(),
            forall|j: int| 0 <= j < v@.len() ==> patch_number(#[trigger] v@[j].name@) == Some(v@[j].patch),
            forall|j: int| 0 <= j < lv.subrange(0, i as int).filter(pred).len()
                ==> #[trigger] patch_number(lv.subrange(0, i as int).filter(pred)[j]) is Some,
            newest_first(v@),
        decreases lv.len() - i,
    {
        let line = &ls[i];
        let ghost pre = lv.subrange(0, i as int);
        proof {
            assert(lv.subrange(0, i + 1) =~= pre.push(lv[i as int]));
            pre.lemma_filter_push(lv[i as int], pred);
            assert(line@ == lv[i as int]);
        }
        if starts_with(line.as_slice(), prefix.as_slice()) {
            let k = patch_start(line.as_slice());
            let digits = slice_vec(line.as_slice(), k, line.len());
            match parse_u32(digits.as_slice()) {
                None => {
                    let name = string_of(line.as_slice(), 0, line.len());
                    proof {
                        assert(line@.subrange(0, line@.len() as int) =~= line@);
                        let f = lv.subrange(0, i + 1).filter(pred);
                        assert(f.last() == line@);
                        assert(f[f.len() - 1] == line@);
                        lemma_filter_prefix_contains(lv, pred, i + 1, f.len() - 1);
                        assert(m.contains(line@));
                    }
                    return Err(TagError::BadPatchNumber(name));
                },
                Some(n) => {
                    let name = string_of(line.as_slice(), 0, line.len());
                    assert(line@.subrange(0, line@.len() as int) =~= line@);
                    let mut pos: usize = 0;
                    while pos < v.len() && v[pos].patch >= n
                        invariant
                            pos <= v@.len(),
                            forall|j: int| 0 <= j < pos ==> v@[j].patch >= n,
                        decreases v@.len() - pos,
                    {
                        pos += 1;
                    }
                    let ghost v0 = v@;
                    let ghost tag = ReleaseTag { name, patch: n };
                    v.insert(pos, ReleaseTag { name, patch: n });
                    proof {
                        assert(v@ == v0.insert(pos as int, tag));
                        assert(v@.map_values(|t: ReleaseTag| t.name@) =~= v0.map_values(|t: ReleaseTag| t.name@).insert(pos as int, line@));
                        vstd::seq_lib::to_multiset_insert(v0.map_values(|t: ReleaseTag| t.name@), pos as int, line@);
                        vstd::seq_lib::to_multiset_build(pre.filter(pred), line@);
                        assert forall|a: int, b: int| 0 <= a < b < v@.len() implies v@[a].patch >= v@[b].patch by {
                            if b < pos {
                            } else if b == pos {
                            } else if a < pos {
                                assert(v@[b] == v0[b - 1]);
                            } else if a == pos {
                                assert(v@[b] == v0[b - 1]);
                                assert(!(v0[pos as int].patch >= n));
                                assert(v0[pos as int].patch >= v0[b - 1].patch);
                            } else {
                                assert(v@[b] == v0[b - 1]);
                                assert(v@[a] == v0[a - 1]);
                            }
                        }
                        assert forall|j: int| 0 <= j < v@.len() implies patch_number(#[trigger] v@[j].name@) == Some(v@[j].patch) by {
                            if j < pos {
                                assert(v@[j] == v0[j]);
                            } else if j > pos {
                                assert(v@[j] == v0[j - 1]);
                            }
                        }
                        let f = lv.subrange(0, i + 1).filter(pred);
                        assert forall|j: int| 0 <= j < f.len() implies #[trigger] patch_number(f[j]) is Some by {
                            if j < f.len() - 1 {
                                assert(f[j] == pre.filter(pred)[j]);
                            }
                        }
                    }
                },
            }
        } else {
            proof {
                let f = lv.subrange(0, i + 1).filter(pred);
                assert(f == pre.filter(pred));
            }
        }
        i += 1;
    }
    assert(lv.subrange(0, lv.len() as int) =~= lv);
    Ok(v)
}

/// A position of a filtered prefix of `s` holds an element of `s` filtered.
proof fn lemma_filter_prefix_contains(s: Seq<Seq<char>>, pred: spec_fn(Seq<char>) -> bool, n: int, j: int)
    requires
        0 <= n <= s.len(),
        0 <= j < s.subrange(0, n).filter(pred).len(),
    ensures
        s.filter(pred).contains(s.subrange(0, n).filter(pred)[j]),
{
    let x = s.subrange(0, n).filter(pred)[j];
    s.subrange(0, n).lemma_filter_pred(pred, j);
    s.subrange(0, n).lemma_filter_contains_rev(pred, x);
    let k = choose|k: int| 0 <= k < n && s.subrange(0, n)[k] == x;
    assert(s[k] == x);
    s.lemma_filter_contains(pred, k);
}

/// The patch version that follows `tags`, listed highest first: `0` for no
/// tags, else one more than the first tag's patch number.
pub fn next_version(tags: &Vec<ReleaseTag>) -> (r: u64)
    ensures
        tags@.len() == 0 ==> r == 0,
        tags@.len() > 0 ==> r == tags@[0].patch + 1,
{
    if tags.len() == 0 {
        0
    } else {
        tags[0].patch as u64 + 1
    }
}

/// The version that follows tags listed highest first exceeds the patch
/// number of every one of them.
pub proof fn lemma_next_version_exceeds(tags: Seq<ReleaseTag>, next: u64)
    requires
        newest_first(tags),
        tags.len() == 0 ==> next == 0,
        tags.len() > 0 ==> next == tags[0].patch + 1,
    ensures
        forall|i: int| 0 <= i < tags.len() ==> next > #[trigger] tags[i].patch,
{
    assert forall|i: int| 0 <= i < tags.len() implies next > #[trigger] tags[i].patch by {
        if i > 0 {
            assert(tags[0].patch >= tags[i].patch);
        }
    }
}

/// The tag of patch `version` of release line `release_line`.
pub fn release_tag_name(release_line: &str, version: u64) -> (r: String)
    ensures
        r@ == release_line@ + seq!['-'] + decimal_of(version as nat),
{
    let mut r = String::from_str(release_line);
    r.append("-");
    let n = decimal_string(version);
    r.append(n.as_str());
    proof {
        reveal_strlit("-");
    }
    r
}

} // verus!
