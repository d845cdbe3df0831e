//! Character-level helpers: a string's characters, strings built from
//! characters, line splitting and whitespace trimming.
use vstd::prelude::*;

verus! {

/// Relies on `String::push`: appends one character.
#[verifier::external_body]
fn push_char(s: &mut String, c: char)
    ensures
        final(s)@ == old(s)@.push(c),
{
    s.push(c)
}

/// The characters of `s`.
pub fn chars_of(s: &str) -> (r: Vec<char>)
    ensures
        r@ == s@,
{
    let mut r: Vec<char> = Vec::new();
    for c in it: s.chars()
        invariant
            r@ == it.history(),
    {
        r.push(c);
    }
    assert(r@ =~= s@);
    r
}

/// The string of the characters `cs[from..to]`.
pub fn string_of(cs: &[char], from: usize, to: usize) -> (r: String)
    requires
        from <= to <= cs@.len(),
    ensures
        r@ == cs@.subrange(from as int, to as int),
{
    let mut r = String::new();
    let mut i = from;
    while i < to
        invariant
            from <= i <= to <= cs@.len(),
            r@ == cs@.subrange(from as int, i as int),
        decreases to - i,
    {
        push_char(&mut r, cs[i]);
        assert(cs@.subrange(from as int, i + 1) =~= cs@.subrange(from as int, i as int).push(cs@[i as int]));
        i += 1;
    }
    r
}

/// `s` without one trailing carriage return.
pub open spec fn strip_cr(s: Seq<char>) -> Seq<char> {
    if s.len() > 0 && s.last() == '\r' {
        s.drop_last()
    } else {
        s
    }
}

/// The lines of `t[start..]`, where the current line began at `start` and
/// the scan stands at `i`.
pub open spec fn lines_from(t: Seq<char>, start: int, i: int) -> Seq<Seq<char>>
    decreases t.len() - i,
{
    if i >= t.len() {
        if start < t.len() {
            seq![strip_cr(t.subrange(start, t.len() as int))]
        } else {
            seq![]
        }
    } else if t[i] == '\n' {
        seq![strip_cr(t.subrange(start, i))] + lines_from(t, i + 1, i + 1)
    } else {
        lines_from(t, start, i + 1)
    }
}

/// The lines of `t`: pieces between line feeds, each without a trailing
/// carriage return; a final line feed ends the last line and starts none.
pub open spec fn lines_of(t: Seq<char>) -> Seq<Seq<char>> {
    lines_from(t, 0, 0)
}

/// The lines of `t` (see [`lines_of`]), as character vectors.
pub fn lines(t: &[char]) -> (r: Vec<Vec<char>>)
    ensures
        r.deep_view() == lines_of(t@),
{
    let mut r: Vec<Vec<char>> = Vec::new();
    let mut start: usize = 0;
    let mut i: usize = 0;
    while i < t.len()
        invariant
            start <= i <= t@.len(),
            r.deep_view() + lines_from(t@, start as int, i as int) == lines_of(t@),
        decreases t@.len() - i,
    {
        if t[i] == '\n' {
            let mut end = i;
            if end > start && t[end - 1] == '\r' {
                end = end - 1;
            }
            let line = slice_vec(t, start, end);
            let ghost lv = line@;
            let ghost rv = r@;
            let ghost before = r.deep_view();
            proof {
                if end < i {
                    assert(t@.subrange(start as int, i as int).drop_last() =~= t@.subrange(start as int, i - 1));
                }
                assert(lv == strip_cr(t@.subrange(start as int, i as int)));
                assert(before.push(lv) + lines_from(t@, i + 1, i + 1) =~= before + lines_from(t@, start as int, i as int));
            }
            r.push(line);
            proof {
                assert(r@ == rv.push(line));
                assert(r.deep_view() =~= before.push(lv)) by {
                    assert forall|j: int| 0 <= j < r@.len() implies #[trigger] r.deep_view()[j] == before.push(lv)[j] by {
                        if j < rv.len() {
                            assert(r@[j] == rv[j]);
                        }
                    }
                }
            }
            start = i + 1;
        }
        i += 1;
    }
    if start < t.len() {
        let mut end = t.len();
        if end > start && t[end - 1] == '\r' {
            end = end - 1;
        }
        let line = slice_vec(t, start, end);
        let ghost lv = line@;
        let ghost rv = r@;
        let ghost before = r.deep_view();
        proof {
            if end < t@.len() {
                assert(t@.subrange(start as int, t@.len() as int).drop_last() =~= t@.subrange(start as int, t@.len() - 1));
            }
            assert(lv == strip_cr(t@.subrange(start as int, t@.len() as int)));
        }
        r.push(line);
        proof {
            assert(r@ == rv.push(line));
            assert(r.deep_view() =~= before.push(lv)) by {
                assert forall|j: int| 0 <= j < r@.len() implies #[trigger] r.deep_view()[j] == before.push(lv)[j] by {
                    if j < rv.len() {
                        assert(r@[j] == rv[j]);
                    }
                }
            }
            assert(before + seq![lv] =~= before.push(lv));
        }
    } else {
        assert(r.deep_view() + seq![] =~= r.deep_view());
    }
    r
}

/// The characters `t[from..to]`.
pub fn slice_vec(t: &[char], from: usize, to: usize) -> (r: Vec<char>)
    requires
        from <= to <= t@.len(),
    ensures
        r@ == t@.subrange(from as int, to as int),
{
    let mut r: Vec<char> = Vec::new();
    let mut i = from;
    while i < to
        invariant
            from <= i <= to <= t@.len(),
            r@ == t@.subrange(from as int, i as int),
        decreases to - i,
    {
        r.push(t[i]);
        assert(t@.subrange(from as int, i + 1) =~= t@.subrange(from as int, i as int).push(t@[i as int]));
        i += 1;
    }
    r
}

} // verus!
