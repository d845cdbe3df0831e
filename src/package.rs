//! What goes into each package: the members of an archive built from entries
//! of a root directory, the member lists of incremental and full packages,
//! and which directory entries an index covers.
use vstd::prelude::*;
use crate::index::ChecksumIndex;
use crate::text::chars_of;

verus! {

/// What an entry name stands for under the root directory.
#[derive(Clone, Copy, PartialEq, Eq, Structural)]
pub enum EntryKind {
    File,
    Directory,
    Missing,
}

/// A member of an archive, named by its path relative to the root.
pub enum ArchiveMember {
    File(String),
    Directory(String),
}

/// Why an archive cannot be built from its entries.
pub enum PackageError {
    /// The entry is neither a file nor a directory.
    MissingEntry(String),
    /// The entry's path would leave the root directory.
    EscapesRoot(String),
}

impl ArchiveMember {
    /// Whether the member is a directory, and its name.
    pub open spec fn view(&self) -> (bool, Seq<char>) {
        match self {
            ArchiveMember::File(n) => (false, n@),
            ArchiveMember::Directory(n) => (true, n@),
        }
    }
}

pub open spec fn is_separator(c: char) -> bool {
    c == '/' || c == '\\'
}

/// How a path component moves from the directory it is read in: `..` one
/// level up, `.` and the empty component (of a doubled separator) nowhere,
/// any other one level down.
pub open spec fn depth_change(comp: Seq<char>) -> int {
    if comp == seq!['.', '.'] {
        -1
    } else if comp.len() == 0 || comp == seq!['.'] {
        0
    } else {
        1
    }
}

/// Reading `name` from position `i` on, where the current component began
/// at `start` and the components before it left the path `depth` levels
/// below the root: some component takes the path above the root.
pub open spec fn climbs_from(name: Seq<char>, start: int, i: int, depth: int) -> bool
    decreases name.len() - i,
{
    if i >= name.len() {
        depth + depth_change(name.subrange(start, name.len() as int)) < 0
    } else if is_separator(name[i]) {
        let d = depth + depth_change(name.subrange(start, i));
        d < 0 || climbs_from(name, i + 1, i + 1, d)
    } else {
        climbs_from(name, start, i + 1, depth)
    }
}

/// Joined to the root, `name` leaves it: it is absolute, or, reading its
/// components from the left, some `..` climbs above the root.
pub open spec fn escapes_root(name: Seq<char>) -> bool {
    ||| (name.len() > 0 && is_separator(name[0]))
    ||| climbs_from(name, 0, 0, 0)
}

/// Joined to the root, `name` names the root itself: each of its components
/// is empty or `.`, that is, it holds only separators and dots, and no dot
/// stands next to another.
pub open spec fn names_root(name: Seq<char>) -> bool {
    &&& forall|i: int| 0 <= i < name.len() ==> name[i] == '.' || is_separator(#[trigger] name[i])
    &&& forall|i: int| 0 <= i < name.len() - 1 ==> !(#[trigger] name[i] == '.' && name[i + 1] == '.')
}

/// Whether `name` names the root itself (see [`names_root`]).
pub fn name_is_root(name: &str) -> (r: bool)
    ensures
        r == names_root(name@),
{
    let cs = chars_of(name);
    let mut i: usize = 0;
    while i < cs.len()
        invariant
            cs@ == name@,
            i <= cs@.len(),
            forall|j: int| 0 <= j < i ==> cs@[j] == '.' || is_separator(#[trigger] cs@[j]),
            forall|j: int| 0 <= j < i && j < cs@.len() - 1 ==> !(#[trigger] cs@[j] == '.' && cs@[j + 1] == '.'),
        decreases cs@.len() - i,
    {
        let c = cs[i];
        if c != '.' && c != '/' && c != '\\' {
            assert(!(name@[i as int] == '.' || is_separator(name@[i as int])));
            return false;
        }
        if c == '.' && i + 1 < cs.len() && cs[i + 1] == '.' {
            assert(name@[i as int] == '.' && name@[i + 1] == '.');
            return false;
        }
        i += 1;
    }
    true
}

/// `name` starts with a drive prefix such as `C:`.
pub open spec fn drive_prefixed(name: Seq<char>) -> bool {
    name.len() >= 2 && (('a' <= name[0] <= 'z') || ('A' <= name[0] <= 'Z')) && name[1] == ':'
}

/// Whether `name` starts with a drive prefix (see [`drive_prefixed`]); on
/// platforms with drive letters such a name leaves the root.
pub fn has_drive_prefix(name: &str) -> (r: bool)
    ensures
        r == drive_prefixed(name@),
{
    let cs = chars_of(name);
    if cs.len() < 2 {
        return false;
    }
    let c = cs[0];
    (('a' <= c && c <= 'z') || ('A' <= c && c <= 'Z')) && cs[1] == ':'
}

/// The member that an entry becomes: a file member for a file, a directory
/// member for a directory other than the root itself (see [`names_root`]),
/// and none for the root.
pub open spec fn member_of(name: Seq<char>, kind: EntryKind) -> Option<(bool, Seq<char>)> {
    match kind {
        EntryKind::File => Some((false, name)),
        EntryKind::Directory => if names_root(name) { None } else { Some((true, name)) },
        EntryKind::Missing => None,
    }
}

/// The members of `names`/`kinds` in order.
pub open spec fn members_of(names: Seq<Seq<char>>, kinds: Seq<EntryKind>) -> Seq<(bool, Seq<char>)>
    decreases names.len(),
{
    if names.len() == 0 || kinds.len() == 0 {
        seq![]
    } else {
        let rest = members_of(names.drop_last(), kinds.drop_last());
        match member_of(names.last(), kinds.last()) {
            Some(m) => rest.push(m),
            None => rest,
        }
    }
}

/// Entry `i` can go into an archive.
pub open spec fn entry_ok(names: Seq<Seq<char>>, kinds: Seq<EntryKind>, i: int) -> bool {
    !escapes_root(names[i]) && kinds[i] != EntryKind::Missing
}

/// How the component `t[start..end]` moves the path (see [`depth_change`]).
fn component_change(t: &[char], start: usize, end: usize) -> (r: i8)
    requires
        start <= end <= t@.len(),
    ensures
        r as int == depth_change(t@.subrange(start as int, end as int)),
{
    let comp = Ghost(t@.subrange(start as int, end as int));
    assert(seq!['.', '.'].len() == 2 && seq!['.'].len() == 1);
    if end - start == 2 && t[start] == '.' && t[start + 1] == '.' {
        assert(comp@ =~= seq!['.', '.']);
        -1
    } else if end == start {
        0
    } else if end - start == 1 && t[start] == '.' {
        assert(comp@ =~= seq!['.']);
        0
    } else {
        let ghost two = seq!['.', '.'];
        let ghost one = seq!['.'];
        assert(comp@ != two) by {
            if comp@ == two {
                assert(two.len() == 2 && two[0] == '.' && two[1] == '.');
                assert(comp@[0] == t@[start as int]);
                assert(comp@[1] == t@[start + 1]);
            }
        }
        assert(comp@ != one) by {
            if comp@ == one {
                assert(one.len() == 1 && one[0] == '.');
                assert(comp@[0] == t@[start as int]);
            }
        }
        1
    }
}

/// Whether `name` leaves the root (see [`escapes_root`]).
pub fn name_escapes_root(name: &str) -> (r: bool)
    ensures
        r == escapes_root(name@),
{
    let cs = chars_of(name);
    let n = cs.len();
    if n > 0 && (cs[0] == '/' || cs[0] == '\\') {
        return true;
    }
    let mut start: usize = 0;
    let mut depth: usize = 0;
    let mut i: usize = 0;
    while i < n
        invariant
            n == cs@.len(),
            cs@ == name@,
            start <= i <= n,
            depth <= start,
            climbs_from(name@, 0, 0, 0) == climbs_from(name@, start as int, i as int, depth as int),
        decreases n - i,
    {
        if cs[i] == '/' || cs[i] == '\\' {
            let c = component_change(cs.as_slice(), start, i);
            if c < 0 {
                if depth == 0 {
                    return true;
                }
                depth = depth - 1;
            } else if c > 0 {
                depth = depth + 1;
            }
            start = i + 1;
        }
        i += 1;
    }
    let c = component_change(cs.as_slice(), start, n);
    c < 0 && depth == 0
}

/// The members of an archive holding `names`, whose kinds under the root
/// are `kinds`, in the order of `names`. Fails on the first entry that is
/// missing or would leave the root.
pub fn plan_archive(names: &Vec<String>, kinds: &Vec<EntryKind>) -> (r: Result<Vec<ArchiveMember>, PackageError>)
    requires
        names@.len() == kinds@.len(),
    ensures
        r is Ok <==> forall|i: int| 0 <= i < names@.len() ==> entry_ok(names.deep_view(), kinds@, i),
        r matches Ok(v) ==> v@.map_values(|m: ArchiveMember| m@) == members_of(names.deep_view(), kinds@),
        r matches Err(PackageError::MissingEntry(n)) ==> exists|i: int| 0 <= i < names@.len()
            && names@[i]@ == n@ && kinds@[i] == EntryKind::Missing,
        r matches Err(PackageError::EscapesRoot(n)) ==> exists|i: int| 0 <= i < names@.len()
            && names@[i]@ == n@ && escapes_root(n@),
{
    let ghost nv = names.deep_view();
    let mut v: Vec<ArchiveMember> = Vec::new();
    let mut i: usize = 0;
    while i < names.len()
        invariant
            names@.len() == kinds@.len(),
            nv == names.deep_view(),
            i <= names@.len(),
            forall|j: int| 0 <= j < i ==> entry_ok(nv, kinds@, j),
            v@.map_values(|m: ArchiveMember| m@) == members_of(nv.subrange(0, i as int), kinds@.subrange(0, i as int)),
        decreases names@.len() - i,
    {
        let name = &names[i];
        assert(nv[i as int] == name@);
        if name_escapes_root(name.as_str()) {
            assert(!entry_ok(nv, kinds@, i as int));
            return Err(PackageError::EscapesRoot(name.clone()));
        }
        let ghost before = v@.map_values(|m: ArchiveMember| m@);
        proof {
            assert(nv.subrange(0, i + 1).drop_last() =~= nv.subrange(0, i as int));
            assert(kinds@.subrange(0, i + 1).drop_last() =~= kinds@.subrange(0, i as int));
            assert(nv.subrange(0, i + 1).last() == name@);
        }
        match kinds[i] {
            EntryKind::Missing => {
                assert(!entry_ok(nv, kinds@, i as int));
                return Err(PackageError::MissingEntry(name.clone()));
            },
            EntryKind::File => {
                v.push(ArchiveMember::File(name.clone()));
                assert(v@.map_values(|m: ArchiveMember| m@) =~= before.push((false, name@)));
            },
            EntryKind::Directory => {
                if !name_is_root(name.as_str()) {
                    v.push(ArchiveMember::Directory(name.clone()));
                    assert(v@.map_values(|m: ArchiveMember| m@) =~= before.push((true, name@)));
                }
            },
        }
        i += 1;
    }
    assert(nv.subrange(0, nv.len() as int) =~= nv);
    assert(kinds@.subrange(0, kinds@.len() as int) =~= kinds@);
    Ok(v)
}

/// The fixed files that travel in every package of release line `line`.
pub open spec fn auxiliary_texts(line: Seq<char>) -> Seq<Seq<char>> {
    seq![
        seq!['c', 'a', 't', 'a', 'l', 'o', 'g', '_'] + line + seq!['.', 'j', 's', 'o', 'n'],
        seq!['c', 'a', 't', 'a', 'l', 'o', 'g', '_'] + line + seq!['.', 'h', 'a', 's', 'h'],
        seq!['V', 'e', 'r', 's', 'i', 'o', 'n', '.', 't', 'x', 't'],
    ]
}

/// The file that lists the changes since release `tag`.
pub open spec fn diff_list_text(tag: Seq<char>) -> Seq<char> {
    seq!['d', 'i', 'f', 'f', '-'] + tag + seq!['.', 'c', 's', 'v']
}

/// The names of an index's records, in order.
pub open spec fn names_of(s: Seq<(Seq<char>, Seq<char>)>) -> Seq<Seq<char>> {
    s.map_values(|r: (Seq<char>, Seq<char>)| r.0)
}

/// The name of the file that lists the changes since release `tag`.
pub fn diff_list_name(tag: &str) -> (r: String)
    ensures
        r@ == diff_list_text(tag@),
{
    let mut r = String::from_str("diff-");
    r.append(tag);
    r.append(".csv");
    proof {
        reveal_strlit("diff-");
        reveal_strlit(".csv");
    }
    r
}

/// Appends `s` to `v`.
fn push_string(v: &mut Vec<String>, s: String)
    ensures
        final(v).deep_view() == old(v).deep_view().push(s@),
{
    let ghost before = v@;
    let ghost sv = s@;
    v.push(s);
    assert(v.deep_view() =~= before.map_values(|x: String| x@).push(sv)) by {
        assert forall|j: int| 0 <= j < v@.len() implies #[trigger] v.deep_view()[j] == before.map_values(|x: String| x@).push(sv)[j] by {
            if j < before.len() {
                assert(v@[j] == before[j]);
            }
        }
    }
    assert(old(v).deep_view() =~= before.map_values(|x: String| x@));
}

/// Appends the fixed files of release line `line` to `v`.
fn push_auxiliary(v: &mut Vec<String>, line: &str)
    ensures
        final(v).deep_view() == old(v).deep_view() + auxiliary_texts(line@),
{
    let ghost before = v.deep_view();
    let mut catalog = String::from_str("catalog_");
    catalog.append(line);
    let mut hash = catalog.clone();
    catalog.append(".json");
    hash.append(".hash");
    push_string(v, catalog);
    push_string(v, hash);
    push_string(v, String::from_str("Version.txt"));
    proof {
        reveal_strlit("catalog_");
        reveal_strlit(".json");
        reveal_strlit(".hash");
        reveal_strlit("Version.txt");
        let a = auxiliary_texts(line@);
        assert(a[0] =~= "catalog_"@ + line@ + ".json"@);
        assert(a[1] =~= "catalog_"@ + line@ + ".hash"@);
        assert(a[2] =~= "Version.txt"@);
        assert(v.deep_view() =~= before + auxiliary_texts(line@));
    }
}

/// Appends the names of `idx` to `v`, in order.
fn push_names(v: &mut Vec<String>, idx: &ChecksumIndex)
    ensures
        final(v).deep_view() == old(v).deep_view() + names_of(idx@),
{
    let ghost before = v.deep_view();
    let mut i: usize = 0;
    while i < idx.len()
        invariant
            i <= idx@.len(),
            v.deep_view() == before + names_of(idx@.subrange(0, i as int)),
        decreases idx@.len() - i,
    {
        let rec = idx.record(i);
        push_string(v, rec.name.clone());
        assert(names_of(idx@.subrange(0, i + 1)) =~= names_of(idx@.subrange(0, i as int)).push(rec.name@));
        assert(v.deep_view() =~= before + names_of(idx@.subrange(0, i + 1)));
        i += 1;
    }
    assert(idx@.subrange(0, idx@.len() as int) =~= idx@);
}

/// The entries of the incremental package from release `tag`: the changed
/// files, the list of changes, then the fixed files of release line `line`.
pub fn patch_entries(changes: &ChecksumIndex, tag: &str, line: &str) -> (r: Vec<String>)
    ensures
        r.deep_view() == names_of(changes@) + seq![diff_list_text(tag@)] + auxiliary_texts(line@),
{
    let mut v: Vec<String> = Vec::new();
    push_names(&mut v, changes);
    let ghost before = v.deep_view();
    push_string(&mut v, diff_list_name(tag));
    assert(v.deep_view() =~= before + seq![diff_list_text(tag@)]);
    push_auxiliary(&mut v, line);
    assert(Seq::<Seq<char>>::empty() + names_of(changes@) =~= names_of(changes@));
    v
}

/// The entries of the full package: every file of `current`, then the fixed
/// files of release line `line`.
pub fn full_entries(current: &ChecksumIndex, line: &str) -> (r: Vec<String>)
    ensures
        r.deep_view() == names_of(current@) + auxiliary_texts(line@),
{
    let mut v: Vec<String> = Vec::new();
    push_names(&mut v, current);
    push_auxiliary(&mut v, line);
    assert(Seq::<Seq<char>>::empty() + names_of(current@) =~= names_of(current@));
    v
}

/// The extension of a file name: the text after its last `.`, where that dot
/// is not the name's first character.
pub open spec fn extension_of(name: Seq<char>) -> Option<Seq<char>> {
    if exists|k: int| 0 < k < name.len() && name[k] == '.' {
        let k = choose|k: int| 0 < k < name.len() && name[k] == '.'
            && forall|j: int| k < j < name.len() ==> name[j] != '.';
        Some(name.subrange(k + 1, name.len() as int))
    } else {
        None
    }
}

/// A directory entry goes into an index when it is no directory and its
/// name has extension `ext`; a name without extension never does.
pub fn is_indexed(name: &str, is_dir: bool, ext: &str) -> (r: bool)
    ensures
        r == (!is_dir && extension_of(name@) == Some(ext@)),
{
    let cs = chars_of(name);
    let e = chars_of(ext);
    let mut k = cs.len();
    while k > 0 && cs[k - 1] != '.'
        invariant
            k <= cs@.len(),
            cs@ == name@,
            forall|j: int| k <= j < cs@.len() ==> cs@[j] != '.',
        decreases k,
    {
        k -= 1;
    }
    if k <= 1 {
        proof {
            assert forall|m: int| !(0 < m < name@.len() && name@[m] == '.') by {
                if 0 < m < name@.len() && name@[m] == '.' {
                    assert(m < k);
                }
            }
        }
        return false;
    }
    let dot = k - 1;
    proof {
        assert(0 < dot < name@.len() && name@[dot as int] == '.');
        assert(forall|j: int| dot < j < name@.len() ==> name@[j] != '.');
        let c = choose|c: int| 0 < c < name@.len() && name@[c] == '.'
            && forall|j: int| c < j < name@.len() ==> name@[j] != '.';
        assert(c == dot) by {
            if c < dot {
                assert(name@[dot as int] != '.');
            } else if c > dot {
                assert(name@[c] != '.');
            }
        }
    }
    if is_dir {
        return false;
    }
    if cs.len() - k != e.len() {
        proof {
            assert(name@.subrange(k as int, name@.len() as int).len() != ext@.len());
        }
        return false;
    }
    let mut j: usize = 0;
    while j < e.len()
        invariant
            j <= e@.len(),
            e@ == ext@,
            cs@ == name@,
            k <= cs@.len(),
            cs@.len() == cs.len(),
            k + e@.len() == cs@.len(),
            !is_dir,
            extension_of(name@) == Some(name@.subrange(k as int, name@.len() as int)),
            forall|m: int| 0 <= m < j ==> cs@[k + m] == e@[m],
        decreases e@.len() - j,
    {
        let at: usize = k + j;
        if cs[at] != e[j] {
            assert(name@.subrange(k as int, name@.len() as int)[j as int] != ext@[j as int]);
            return false;
        }
        j += 1;
    }
    assert(name@.subrange(k as int, name@.len() as int) =~= ext@);
    true
}

} // verus!
