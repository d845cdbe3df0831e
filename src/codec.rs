//! The text form of a checksum index: one `name,checksum` line per record.
use vstd::prelude::*;
use crate::index::{ChecksumIndex, map_of};
use crate::text::{chars_of, lines, lines_from, lines_of, string_of, strip_cr};

verus! {

/// Whitespace that [`trim`] removes: the characters with the Unicode
/// `White_Space` property.
pub open spec fn is_space(c: char) -> bool {
    ||| ('\t' <= c <= '\r')
    ||| c == ' '
    ||| c == '\u{85}'
    ||| c == '\u{a0}'
    ||| c == '\u{1680}'
    ||| ('\u{2000}' <= c <= '\u{200a}')
    ||| c == '\u{2028}'
    ||| c == '\u{2029}'
    ||| c == '\u{202f}'
    ||| c == '\u{205f}'
    ||| c == '\u{3000}'
}

/// Whether `c` is whitespace (see [`is_space`]).
pub fn is_space_char(c: char) -> (r: bool)
    ensures
        r == is_space(c),
{
    ('\t' <= c && c <= '\r') || c == ' ' || c == '\u{85}' || c == '\u{a0}' || c == '\u{1680}'
        || ('\u{2000}' <= c && c <= '\u{200a}') || c == '\u{2028}' || c == '\u{2029}'
        || c == '\u{202f}' || c == '\u{205f}' || c == '\u{3000}'
}

pub open spec fn trim_start(s: Seq<char>) -> Seq<char>
    decreases s.len(),
{
    if s.len() > 0 && is_space(s[0]) {
        trim_start(s.drop_first())
    } else {
        s
    }
}

pub open spec fn trim_end(s: Seq<char>) -> Seq<char>
    decreases s.len(),
{
    if s.len() > 0 && is_space(s.last()) {
        trim_end(s.drop_last())
    } else {
        s
    }
}

/// `s` without leading and trailing whitespace.
pub open spec fn trim(s: Seq<char>) -> Seq<char> {
    trim_end(trim_start(s))
}

pub open spec fn no_comma(s: Seq<char>) -> bool {
    forall|i: int| 0 <= i < s.len() ==> s[i] != ','
}

/// `c` is the one comma of `l`.
pub open spec fn sole_comma(l: Seq<char>, c: int) -> bool {
    0 <= c < l.len() && l[c] == ',' && no_comma(l.subrange(0, c)) && no_comma(l.subrange(c + 1, l.len() as int))
}

/// The record that a line stands for: a line with exactly one comma gives
/// the trimmed text before it as name and the trimmed text after it as
/// checksum; any other line gives none.
pub open spec fn parse_line(l: Seq<char>) -> Option<(Seq<char>, Seq<char>)> {
    if exists|c: int| sole_comma(l, c) {
        let c = choose|c: int| sole_comma(l, c);
        Some((trim(l.subrange(0, c)), trim(l.subrange(c + 1, l.len() as int))))
    } else {
        None
    }
}

/// The records of a sequence of lines, in order.
pub open spec fn parsed(ls: Seq<Seq<char>>) -> Seq<(Seq<char>, Seq<char>)>
    decreases ls.len(),
{
    if ls.len() == 0 {
        seq![]
    } else {
        match parse_line(ls.last()) {
            Some(rec) => parsed(ls.drop_last()).push(rec),
            None => parsed(ls.drop_last()),
        }
    }
}

/// The text of a sequence of records.
pub open spec fn encoded(s: Seq<(Seq<char>, Seq<char>)>) -> Seq<char>
    decreases s.len(),
{
    if s.len() == 0 {
        seq![]
    } else {
        encoded(s.drop_last()) + s.last().0 + seq![','] + s.last().1 + seq!['\n']
    }
}

/// The string of `s[from..to]` without leading and trailing whitespace.
fn trimmed(s: &[char], from: usize, to: usize) -> (r: String)
    requires
        from <= to <= s@.len(),
    ensures
        r@ == trim(s@.subrange(from as int, to as int)),
{
    let mut a = from;
    while a < to && is_space_char(s[a])
        invariant
            from <= a <= to <= s@.len(),
            trim_start(s@.subrange(from as int, to as int)) == trim_start(s@.subrange(a as int, to as int)),
        decreases to - a,
    {
        assert(s@.subrange(a as int, to as int).drop_first() =~= s@.subrange(a + 1, to as int));
        a += 1;
    }
    let mut b = to;
    while b > a && is_space_char(s[b - 1])
        invariant
            from <= a <= b <= to <= s@.len(),
            trim_end(s@.subrange(a as int, to as int)) == trim_end(s@.subrange(a as int, b as int)),
        decreases b - a,
    {
        assert(s@.subrange(a as int, b as int).drop_last() =~= s@.subrange(a as int, b - 1));
        b -= 1;
    }
    string_of(s, a, b)
}

/// The record of one line (see [`parse_line`]).
pub fn decode_line(l: &[char]) -> (r: Option<(String, String)>)
    ensures
        r matches Some(p) ==> parse_line(l@) == Some((p.0@, p.1@)),
        r is None ==> parse_line(l@) is None,
{
    let mut c: usize = 0;
    while c < l.len() && l[c] != ','
        invariant
            c <= l@.len(),
            no_comma(l@.subrange(0, c as int)),
        decreases l@.len() - c,
    {
        c += 1;
    }
    if c == l.len() {
        proof {
            assert forall|d: int| !sole_comma(l@, d) by {
                if 0 <= d < l@.len() && l@[d] == ',' {
                    assert(l@.subrange(0, c as int)[d] == ',');
                }
            }
        }
        return None;
    }
    let mut j: usize = c + 1;
    while j < l.len() && l[j] != ','
        invariant
            c < j <= l@.len(),
            no_comma(l@.subrange(c + 1, j as int)),
        decreases l@.len() - j,
    {
        j += 1;
    }
    if j < l.len() {
        proof {
            assert forall|d: int| !sole_comma(l@, d) by {
                if sole_comma(l@, d) {
                    if d < c {
                        assert(l@.subrange(0, c as int)[d] == ',');
                    } else if d > c {
                        assert(l@.subrange(0, d)[c as int] == ',');
                    } else {
                        assert(l@.subrange(c + 1, l@.len() as int)[j - c - 1] == ',');
                    }
                }
            }
        }
        return None;
    }
    proof {
        assert(sole_comma(l@, c as int));
        let d = choose|d: int| sole_comma(l@, d);
        if d < c {
            assert(l@.subrange(0, c as int)[d] == ',');
        } else if d > c {
            assert(l@.subrange(0, d)[c as int] == ',');
        }
    }
    let name = trimmed(l, 0, c);
    let checksum = trimmed(l, c + 1, l.len());
    Some((name, checksum))
}

/// The index that a text holds: the record of each line, in order, a later
/// record of a name replacing an earlier one. Lines that stand for no record
/// are skipped.
pub fn decode(text: &str) -> (r: ChecksumIndex)
    ensures
        r.wf(),
        r.map() == map_of(parsed(lines_of(text@))),
{
    let cs = chars_of(text);
    let ls = lines(cs.as_slice());
    let ghost lv = ls.deep_view();
    let mut r = ChecksumIndex::new();
    let mut i: usize = 0;
    while i < ls.len()
        invariant
            lv == ls.deep_view(),
            lv == lines_of(text@),
            i <= lv.len(),
            r.wf(),
            r.map() == map_of(parsed(lv.subrange(0, i as int))),
        decreases lv.len() - i,
    {
        let rec = decode_line(ls[i].as_slice());
        proof {
            let pre = lv.subrange(0, i + 1);
            assert(pre.drop_last() =~= lv.subrange(0, i as int));
            assert(pre.last() == ls@[i as int]@);
        }
        match rec {
            Some(p) => {
                proof {
                    let prev = parsed(lv.subrange(0, i as int));
                    let rec = (p.0@, p.1@);
                    assert(parsed(lv.subrange(0, i + 1)) == prev.push(rec));
                    assert(prev.push(rec).drop_last() =~= prev);
                    assert(map_of(prev.push(rec)) == map_of(prev).insert(rec.0, rec.1));
                }
                r.insert(p.0, p.1);
            },
            None => {
                assert(parsed(lv.subrange(0, i + 1)) == parsed(lv.subrange(0, i as int)));
            },
        }
        i += 1;
    }
    assert(lv.subrange(0, lv.len() as int) =~= lv);
    r
}

/// The text of an index: `name,checksum` and a line feed for each record, in
/// the index's order.
pub fn encode(idx: &ChecksumIndex) -> (r: String)
    ensures
        r@ == encoded(idx@),
{
    let mut r = String::new();
    let mut i: usize = 0;
    while i < idx.len()
        invariant
            i <= idx@.len(),
            r@ == encoded(idx@.subrange(0, i as int)),
        decreases idx@.len() - i,
    {
        let rec = idx.record(i);
        let ghost before = r@;
        r.append(rec.name.as_str());
        r.append(",");
        r.append(rec.checksum.as_str());
        r.append("\n");
        proof {
            reveal_strlit(",");
            reveal_strlit("\n");
            let pre = idx@.subrange(0, i + 1);
            assert(pre.drop_last() =~= idx@.subrange(0, i as int));
            assert(pre.last() == rec@);
        }
        i += 1;
    }
    assert(idx@.subrange(0, idx@.len() as int) =~= idx@);
    r
}

/// A field that the text form carries unchanged: no comma, no line feed,
/// and no whitespace at either end.
pub open spec fn plain_field(f: Seq<char>) -> bool {
    no_comma(f) && (forall|i: int| 0 <= i < f.len() ==> f[i] != '\n') && trim(f) == f
}

proof fn lemma_lines_shift(p: Seq<char>, q: Seq<char>, a: int, b: int)
    requires
        0 <= a <= b <= q.len(),
    ensures
        lines_from(p + q, p.len() + a, p.len() + b) == lines_from(q, a, b),
    decreases q.len() - b,
{
    let t = p + q;
    if b >= q.len() {
        if a < q.len() {
            assert(t.subrange(p.len() + a, t.len() as int) =~= q.subrange(a, q.len() as int));
        }
    } else {
        assert(t[p.len() + b] == q[b]);
        if q[b] == '\n' {
            assert(t.subrange(p.len() + a, p.len() + b) =~= q.subrange(a, b));
            lemma_lines_shift(p, q, b + 1, b + 1);
        } else {
            lemma_lines_shift(p, q, a, b + 1);
        }
    }
}

proof fn lemma_lines_concat_from(p: Seq<char>, q: Seq<char>, s: int, i: int)
    requires
        p.len() == 0 || p.last() == '\n',
        0 <= s <= i <= p.len(),
        i < p.len() || s == i,
    ensures
        lines_from(p + q, s, i) == lines_from(p, s, i) + lines_of(q),
    decreases p.len() - i,
{
    let t = p + q;
    if i == p.len() {
        lemma_lines_shift(p, q, 0, 0);
        assert(lines_from(p, s, i) =~= Seq::<Seq<char>>::empty());
        assert(lines_from(p, s, i) + lines_of(q) =~= lines_of(q));
    } else {
        assert(t[i] == p[i]);
        if p[i] == '\n' {
            assert(t.subrange(s, i) =~= p.subrange(s, i));
            lemma_lines_concat_from(p, q, i + 1, i + 1);
            assert(seq![strip_cr(p.subrange(s, i))] + lines_from(p, i + 1, i + 1) + lines_of(q)
                =~= seq![strip_cr(p.subrange(s, i))] + (lines_from(p, i + 1, i + 1) + lines_of(q)));
        } else {
            assert(i + 1 < p.len() || s == i + 1) by {
                if i + 1 == p.len() {
                    assert(p.last() == p[i]);
                }
            }
            lemma_lines_concat_from(p, q, s, i + 1);
        }
    }
}

proof fn lemma_one_line(l: Seq<char>, i: int)
    requires
        forall|j: int| 0 <= j < l.len() ==> l[j] != '\n',
        0 <= i <= l.len(),
    ensures
        lines_from(l.push('\n'), 0, i) == seq![strip_cr(l)],
    decreases l.len() - i,
{
    let t = l.push('\n');
    if i == l.len() {
        assert(t.subrange(0, i) =~= l);
        assert(lines_from(t, i + 1, i + 1) =~= Seq::<Seq<char>>::empty());
        assert(seq![strip_cr(l)] + Seq::<Seq<char>>::empty() =~= seq![strip_cr(l)]);
    } else {
        assert(t[i] == l[i]);
        lemma_one_line(l, i + 1);
    }
}

proof fn lemma_parse_plain(name: Seq<char>, sum: Seq<char>)
    requires
        plain_field(name),
        plain_field(sum),
    ensures
        parse_line(name + seq![','] + sum) == Some((name, sum)),
{
    let l = name + seq![','] + sum;
    let c = name.len() as int;
    assert(l.subrange(0, c) =~= name);
    assert(l.subrange(c + 1, l.len() as int) =~= sum);
    assert(sole_comma(l, c));
    let d = choose|d: int| sole_comma(l, d);
    if d < c {
        assert(l.subrange(0, c)[d] == ',');
    } else if d > c {
        assert(l.subrange(0, d)[c] == ',');
    }
}

/// The text of `s` ends where a line ends.
proof fn lemma_encoded_ends_line(s: Seq<(Seq<char>, Seq<char>)>)
    ensures
        encoded(s).len() == 0 || encoded(s).last() == '\n',
{
}

/// Reading back the text of an index gives the index's records, provided
/// every name and checksum is a [`plain_field`].
pub proof fn lemma_decode_encoded(s: Seq<(Seq<char>, Seq<char>)>)
    requires
        forall|i: int| 0 <= i < s.len() ==> plain_field(#[trigger] s[i].0) && plain_field(s[i].1),
    ensures
        parsed(lines_of(encoded(s))) == s,
    decreases s.len(),
{
    if s.len() > 0 {
        let t = s.drop_last();
        assert forall|i: int| 0 <= i < t.len() implies plain_field(#[trigger] t[i].0) && plain_field(t[i].1) by {
            assert(t[i] == s[i]);
        }
        lemma_decode_encoded(t);
        let rec = s.last();
        assert(plain_field(s[s.len() - 1].0));
        let line = rec.0 + seq![','] + rec.1;
        let e = encoded(t);
        lemma_encoded_ends_line(t);
        assert(encoded(s) =~= e + line.push('\n'));
        lemma_lines_concat_from(e, line.push('\n'), 0, 0);
        assert(forall|j: int| 0 <= j < line.len() ==> line[j] != '\n') by {
            assert forall|j: int| 0 <= j < line.len() implies line[j] != '\n' by {
                if j < rec.0.len() {
                    assert(line[j] == rec.0[j]);
                } else if j > rec.0.len() {
                    assert(line[j] == rec.1[j - rec.0.len() - 1]);
                }
            }
        }
        lemma_one_line(line, 0);
        assert(strip_cr(line) == line) by {
            if line.last() == '\r' {
                assert(rec.1.len() > 0);
                assert(line.last() == rec.1.last());
                assert(trim_end(trim_start(rec.1)) == rec.1);
                lemma_trim_end_last(trim_start(rec.1));
            }
        }
        let ls = lines_of(encoded(s));
        assert(ls == lines_of(e).push(line)) by {
            assert(lines_from(e, 0, 0) + seq![line] =~= lines_of(e).push(line));
        }
        assert(ls.drop_last() =~= lines_of(e));
        lemma_parse_plain(rec.0, rec.1);
        assert(t.push(rec) =~= s);
    }
}

/// A sequence that [`trim_end`] leaves as it is does not end in whitespace.
proof fn lemma_trim_end_last(x: Seq<char>)
    requires
        trim_end(x).len() > 0,
    ensures
        !is_space(trim_end(x).last()),
    decreases x.len(),
{
    if x.len() > 0 && is_space(x.last()) {
        lemma_trim_end_last(x.drop_last());
    }
}

/// Decoding the text of an index gives back the index as a mapping,
/// provided every name and checksum is a [`plain_field`].
pub proof fn lemma_round_trip(idx: ChecksumIndex)
    requires
        idx.wf(),
        forall|i: int| 0 <= i < idx@.len() ==> plain_field(#[trigger] idx@[i].0) && plain_field(idx@[i].1),
    ensures
        map_of(parsed(lines_of(encoded(idx@)))) == idx.map(),
{
    lemma_decode_encoded(idx@);
}

} // verus!
