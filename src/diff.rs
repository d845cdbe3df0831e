//! The difference between an older and a newer checksum index: what a client
//! holding the older snapshot must download. Names found only in the older
//! index are not reported.
use vstd::prelude::*;
use crate::index::{ChecksumIndex, map_of, unique_names};

verus! {

/// `rec` must be downloaded by a holder of `old`: `old` lacks its name or maps
/// it to another checksum.
pub open spec fn is_changed(old: Map<Seq<char>, Seq<char>>, rec: (Seq<char>, Seq<char>)) -> bool {
    !old.contains_key(rec.0) || old[rec.0] != rec.1
}

/// [`is_changed`] against `old`, as a predicate on records.
pub open spec fn changed_against(old: Map<Seq<char>, Seq<char>>) -> spec_fn((Seq<char>, Seq<char>)) -> bool {
    |rec: (Seq<char>, Seq<char>)| is_changed(old, rec)
}

/// The records of `new` that a holder of `old` lacks, in `new`'s order.
pub open spec fn diff_of(
    old: Map<Seq<char>, Seq<char>>,
    new: Seq<(Seq<char>, Seq<char>)>,
) -> Seq<(Seq<char>, Seq<char>)> {
    new.filter(changed_against(old))
}

/// The records of `new` whose name `old` lacks or maps to another checksum,
/// in the order of `new`.
pub fn diff(old: &ChecksumIndex, new: &ChecksumIndex) -> (r: ChecksumIndex)
    requires
        old.wf(),
        new.wf(),
    ensures
        r.wf(),
        r@ == diff_of(old.map(), new@),
{
    let ghost pred = changed_against(old.map());
    let mut r = ChecksumIndex::new();
    let mut i: usize = 0;
    while i < new.len()
        invariant
            old.wf(),
            new.wf(),
            r.wf(),
            pred == changed_against(old.map()),
            i <= new@.len(),
            r@ == new@.subrange(0, i as int).filter(pred),
        decreases new@.len() - i,
    {
        let rec = new.record(i);
        let changed = match old.get(&rec.name) {
            None => true,
            Some(c) => !(*c == rec.checksum),
        };
        assert(changed == pred(new@[i as int]));
        proof {
            let pre = new@.subrange(0, i as int);
            assert(new@.subrange(0, i + 1) =~= pre.push(new@[i as int]));
            pre.lemma_filter_push(new@[i as int], pred);
        }
        if changed {
            proof {
                let pre = new@.subrange(0, i as int);
                assert forall|j: int| 0 <= j < r@.len() implies r@[j].0 != rec.name@ by {
                    pre.lemma_filter_contains_rev(pred, r@[j]);
                    let k = choose|k: int| 0 <= k < pre.len() && pre[k] == r@[j];
                    assert(new@[k] == pre[k]);
                }
            }
            r.push_new(rec.name.clone(), rec.checksum.clone());
        }
        i += 1;
    }
    assert(new@.subrange(0, new@.len() as int) =~= new@);
    r
}

/// An index differs from itself in nothing.
pub proof fn lemma_diff_self_empty(idx: ChecksumIndex)
    requires
        idx.wf(),
    ensures
        diff_of(idx.map(), idx@).len() == 0,
{
    let pred = changed_against(idx.map());
    crate::index::lemma_map_of_unique(idx@);
    let d = diff_of(idx.map(), idx@);
    if d.len() > 0 {
        idx@.lemma_filter_pred(pred, 0);
        idx@.lemma_filter_contains_rev(pred, d[0]);
        let k = choose|k: int| 0 <= k < idx@.len() && idx@[k] == d[0];
        assert(idx.map()[idx@[k].0] == idx@[k].1);
        assert(idx.map().contains_key(idx@[k].0));
    }
}

/// Every name that the difference reports is a name of the newer index, with
/// the newer index's checksum.
pub proof fn lemma_diff_within_new(old: ChecksumIndex, new: ChecksumIndex)
    requires
        old.wf(),
        new.wf(),
    ensures
        diff_of(old.map(), new@).to_set().subset_of(new@.to_set()),
        forall|k: Seq<char>| #[trigger] map_of(diff_of(old.map(), new@)).contains_key(k)
            ==> new.map().contains_key(k) && map_of(diff_of(old.map(), new@))[k] == new.map()[k],
{
    let pred = changed_against(old.map());
    let d = diff_of(old.map(), new@);
    crate::index::lemma_map_of_unique(new@);
    assert forall|x: (Seq<char>, Seq<char>)| d.to_set().contains(x) implies new@.to_set().contains(x) by {
        new@.lemma_filter_contains_rev(pred, x);
    }
    assert(unique_names(d)) by {
        assert forall|i: int, j: int| 0 <= i < d.len() && 0 <= j < d.len() && i != j implies d[i].0 != d[j].0 by {
            lemma_filter_index_map(new@, pred, i, j);
        }
    }
    crate::index::lemma_map_of_unique(d);
    assert forall|k: Seq<char>| #[trigger] map_of(d).contains_key(k)
        implies new.map().contains_key(k) && map_of(d)[k] == new.map()[k] by {
        let i = choose|i: int| 0 <= i < d.len() && d[i].0 == k;
        new@.lemma_filter_contains_rev(pred, d[i]);
        let m = choose|m: int| 0 <= m < new@.len() && new@[m] == d[i];
        assert(new.map()[new@[m].0] == new@[m].1);
    }
}

/// Distinct positions of a filtered sequence come from distinct positions of
/// the sequence filtered.
proof fn lemma_filter_index_map(
    s: Seq<(Seq<char>, Seq<char>)>,
    pred: spec_fn((Seq<char>, Seq<char>)) -> bool,
    i: int,
    j: int,
)
    requires
        unique_names(s),
        0 <= i < s.filter(pred).len(),
        0 <= j < s.filter(pred).len(),
        i != j,
    ensures
        s.filter(pred)[i].0 != s.filter(pred)[j].0,
    decreases s.len(),
{
    reveal(Seq::filter);
    let t = s.drop_last();
    assert(unique_names(t));
    let ft = t.filter(pred);
    if pred(s.last()) {
        let n = ft.len() as int;
        if i < n && j < n {
            lemma_filter_index_map(t, pred, i, j);
        } else {
            let m = if i < n { i } else { j };
            t.lemma_filter_contains_rev(pred, ft[m]);
            let k = choose|k: int| 0 <= k < t.len() && t[k] == ft[m];
            assert(s[k] == t[k]);
            assert(s[s.len() - 1] == s.last());
        }
    } else {
        lemma_filter_index_map(t, pred, i, j);
    }
}

} // verus!
