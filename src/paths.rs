//! Converting paths between Windows form (`C:\...`) and the form that
//! Cygwin tools use (`/cygdrive/c/...`).
use vstd::prelude::*;
use crate::text::{chars_of, string_of};

verus! {

/// `s` with every occurrence of `from` replaced by `to`, scanning from the
/// left and not rescanning replaced text.
pub open spec fn replace_all(s: Seq<char>, from: Seq<char>, to: Seq<char>) -> Seq<char>
    recommends
        from.len() > 0,
    decreases s.len(),
{
    if s.len() == 0 || from.len() == 0 {
        s
    } else if from.is_prefix_of(s) {
        to + replace_all(s.subrange(from.len() as int, s.len() as int), from, to)
    } else {
        seq![s[0]] + replace_all(s.drop_first(), from, to)
    }
}

/// `s[i..]` starts with `p`.
fn matches_at(s: &[char], i: usize, p: &[char]) -> (r: bool)
    requires
        i <= s@.len(),
    ensures
        r == p@.is_prefix_of(s@.subrange(i as int, s@.len() as int)),
{
    if p.len() > s.len() - i {
        return false;
    }
    let mut j: usize = 0;
    while j < p.len()
        invariant
            i + p@.len() <= s@.len(),
            s@.len() == s.len(),
            j <= p@.len(),
            forall|m: int| 0 <= m < j ==> p@[m] == s@[i + m],
        decreases p@.len() - j,
    {
        let at: usize = i + j;
        if p[j] != s[at] {
            assert(s@.subrange(i as int, s@.len() as int)[j as int] == s@[i + j]);
            return false;
        }
        j += 1;
    }
    true
}

/// `s` with every occurrence of `from` replaced by `to` (see [`replace_all`]).
pub fn replace(s: &str, from: &str, to: &str) -> (r: String)
    requires
        from@.len() > 0,
    ensures
        r@ == replace_all(s@, from@, to@),
{
    let cs = chars_of(s);
    let f = chars_of(from);
    let t = chars_of(to);
    let mut out: Vec<char> = Vec::new();
    let mut i: usize = 0;
    assert(cs@.subrange(0, cs@.len() as int) =~= s@);
    assert(out@ + replace_all(s@, from@, to@) =~= replace_all(s@, from@, to@));
    while i < cs.len()
        invariant
            cs@ == s@,
            f@ == from@,
            t@ == to@,
            f@.len() > 0,
            i <= cs@.len(),
            out@ + replace_all(cs@.subrange(i as int, cs@.len() as int), f@, t@) == replace_all(s@, from@, to@),
        decreases cs@.len() - i,
    {
        let ghost rest = cs@.subrange(i as int, cs@.len() as int);
        let ghost before = out@;
        if matches_at(cs.as_slice(), i, f.as_slice()) {
            let mut k: usize = 0;
            while k < t.len()
                invariant
                    k <= t@.len(),
                    out@ == before + t@.subrange(0, k as int),
                decreases t@.len() - k,
            {
                out.push(t[k]);
                assert(t@.subrange(0, k + 1) =~= t@.subrange(0, k as int).push(t@[k as int]));
                k += 1;
            }
            assert(t@.subrange(0, t@.len() as int) =~= t@);
            assert(rest.subrange(f@.len() as int, rest.len() as int) =~= cs@.subrange(i + f@.len(), cs@.len() as int));
            assert(before + (t@ + replace_all(rest.subrange(f@.len() as int, rest.len() as int), f@, t@))
                =~= out@ + replace_all(cs@.subrange(i + f@.len(), cs@.len() as int), f@, t@));
            i = i + f.len();
        } else {
            out.push(cs[i]);
            assert(rest.drop_first() =~= cs@.subrange(i + 1, cs@.len() as int));
            assert(before + (seq![cs@[i as int]] + replace_all(rest.drop_first(), f@, t@))
                =~= out@ + replace_all(cs@.subrange(i + 1, cs@.len() as int), f@, t@));
            i += 1;
        }
    }
    assert(out@ + replace_all(cs@.subrange(i as int, cs@.len() as int), f@, t@) =~= out@);
    assert(out@.subrange(0, out@.len() as int) =~= out@);
    string_of(out.as_slice(), 0, out.len())
}

/// A Cygwin path in Windows form: `/cygdrive/c` becomes `C:`.
pub fn cyg_to_win(path: &str) -> (r: String)
    ensures
        r@ == replace_all(path@, "/cygdrive/c"@, "C:"@),
{
    proof {
        reveal_strlit("/cygdrive/c");
    }
    replace(path, "/cygdrive/c", "C:")
}

/// A Windows path in Cygwin form: `C:` becomes `/cygdrive/c` and each
/// backslash a slash.
pub fn win_to_cyg(path: &str) -> (r: String)
    ensures
        r@ == replace_all(replace_all(path@, "C:"@, "/cygdrive/c"@), "\\"@, "/"@),
{
    proof {
        reveal_strlit("C:");
        reveal_strlit("\\");
    }
    let step = replace(path, "C:", "/cygdrive/c");
    replace(step.as_str(), "\\", "/")
}

} // verus!
