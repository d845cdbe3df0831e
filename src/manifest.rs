//! Human-readable package sizes and the manifest of one platform's packages.
use vstd::prelude::*;
use crate::numeric::{decimal_of, decimal_string, digit_char};

verus! {

/// `n / d` rounded to the nearest integer, ties to the even one.
pub open spec fn round_half_even(n: nat, d: nat) -> nat
    recommends
        d > 0,
{
    let q = n / d;
    let r = n % d;
    if 2 * r > d || (2 * r == d && q % 2 == 1) {
        q + 1
    } else {
        q
    }
}

/// `h` hundredths written with two decimal places.
pub open spec fn hundredths_text(h: nat) -> Seq<char> {
    decimal_of(h / 100) + seq!['.', digit_char((h % 100) / 10), digit_char(h % 10)]
}

/// The text of a size of `bytes` bytes: in mebibytes with two decimals and
/// the suffix ` M`, or, below a hundredth of a mebibyte, in kibibytes with
/// two decimals and the suffix ` K`.
pub open spec fn size_text(bytes: nat) -> Seq<char> {
    if bytes * 100 < 1048576 {
        hundredths_text(round_half_even(bytes * 100, 1024)) + seq![' ', 'K']
    } else {
        hundredths_text(round_half_even(bytes * 100, 1048576)) + seq![' ', 'M']
    }
}

/// `h` hundredths written with two decimal places.
fn hundredths_string(h: u64) -> (r: String)
    ensures
        r@ == hundredths_text(h as nat),
{
    let mut r = decimal_string(h / 100);
    r.append(".");
    let tens = ((h % 100) / 10) as u8;
    let ones = (h % 10) as u8;
    if tens == 0 { r.append("0") } else if tens == 1 { r.append("1") } else if tens == 2 { r.append("2") }
    else if tens == 3 { r.append("3") } else if tens == 4 { r.append("4") } else if tens == 5 { r.append("5") }
    else if tens == 6 { r.append("6") } else if tens == 7 { r.append("7") } else if tens == 8 { r.append("8") }
    else { r.append("9") }
    if ones == 0 { r.append("0") } else if ones == 1 { r.append("1") } else if ones == 2 { r.append("2") }
    else if ones == 3 { r.append("3") } else if ones == 4 { r.append("4") } else if ones == 5 { r.append("5") }
    else if ones == 6 { r.append("6") } else if ones == 7 { r.append("7") } else if ones == 8 { r.append("8") }
    else { r.append("9") }
    proof {
        reveal_strlit(".");
        reveal_strlit("0");
        reveal_strlit("1");
        reveal_strlit("2");
        reveal_strlit("3");
        reveal_strlit("4");
        reveal_strlit("5");
        reveal_strlit("6");
        reveal_strlit("7");
        reveal_strlit("8");
        reveal_strlit("9");
        assert(r@ =~= hundredths_text(h as nat));
    }
    r
}

/// `n / d` rounded to the nearest integer, ties to the even one.
fn div_round_half_even(n: u128, d: u128) -> (r: u128)
    requires
        0 < d <= 1048576,
        n <= 0xffff_ffff_ffff_ffff * 100,
    ensures
        r == round_half_even(n as nat, d as nat),
        r <= n / d + 1,
{
    let q = n / d;
    let rem = n % d;
    assert(q <= n) by (nonlinear_arith)
        requires q == n / d, d > 0;
    if 2 * rem > d || (2 * rem == d && q % 2 == 1) {
        q + 1
    } else {
        q
    }
}

/// The text of a size of `bytes` bytes (see [`size_text`]).
pub fn format_size(bytes: u64) -> (r: String)
    ensures
        r@ == size_text(bytes as nat),
{
    let n = bytes as u128 * 100;
    if n < 1048576 {
        let h = div_round_half_even(n, 1024);
        assert(n / 1024 <= n) by (nonlinear_arith);
        let mut r = hundredths_string(h as u64);
        r.append(" K");
        proof {
            reveal_strlit(" K");
        }
        r
    } else {
        let h = div_round_half_even(n, 1048576);
        assert(n / 1048576 <= (bytes as u128)) by (nonlinear_arith)
            requires n == bytes as u128 * 100;
        let mut r = hundredths_string(h as u64);
        r.append(" M");
        proof {
            reveal_strlit(" M");
        }
        r
    }
}

/// What a platform's manifest says: the newest version with its full package,
/// and one incremental package per earlier release, in the order added.
pub struct PlatformManifest {
    /// The newest patch version.
    pub ver: String,
    /// File name of the full package.
    pub down: String,
    /// Size of the full package (see [`format_size`]).
    pub size: String,
    /// The release tag that each incremental package updates from.
    pub vers: Vec<String>,
    /// File name of each incremental package.
    pub downs: Vec<String>,
    /// Size of each incremental package.
    pub sizes: Vec<String>,
}

/// The file name of the full package of `version`.
pub open spec fn full_archive_text(version: nat) -> Seq<char> {
    decimal_of(version) + seq!['-', 'f', 'u', 'l', 'l', '.', 'z', 'i', 'p']
}

/// The file name of the incremental package from release `tag`.
pub open spec fn patch_archive_text(tag: Seq<char>) -> Seq<char> {
    tag + seq!['.', 'z', 'i', 'p']
}

/// The file name of the full package of `version`.
pub fn full_archive_name(version: u64) -> (r: String)
    ensures
        r@ == full_archive_text(version as nat),
{
    let mut r = decimal_string(version);
    r.append("-full.zip");
    proof {
        reveal_strlit("-full.zip");
    }
    r
}

/// The file name of the incremental package from release `tag`.
pub fn patch_archive_name(tag: &str) -> (r: String)
    ensures
        r@ == patch_archive_text(tag@),
{
    let mut r = String::from_str(tag);
    r.append(".zip");
    proof {
        reveal_strlit(".zip");
    }
    r
}

impl PlatformManifest {
    /// The three lists have one entry per incremental package.
    pub open spec fn wf(&self) -> bool {
        self.vers@.len() == self.downs@.len() && self.downs@.len() == self.sizes@.len()
    }

    /// A manifest of `version` whose full package has `full_size` bytes, with
    /// no incremental package yet.
    pub fn new(version: u64, full_size: u64) -> (r: PlatformManifest)
        ensures
            r.wf(),
            r.ver@ == decimal_of(version as nat),
            r.down@ == full_archive_text(version as nat),
            r.size@ == size_text(full_size as nat),
            r.vers@.len() == 0,
    {
        PlatformManifest {
            ver: decimal_string(version),
            down: full_archive_name(version),
            size: format_size(full_size),
            vers: Vec::new(),
            downs: Vec::new(),
            sizes: Vec::new(),
        }
    }

    /// Adds the incremental package from release `tag`, of `archive_size`
    /// bytes, after those already listed.
    pub fn add_patch(&mut self, tag: &str, archive_size: u64)
        requires
            old(self).wf(),
        ensures
            final(self).wf(),
            final(self).ver == old(self).ver,
            final(self).down == old(self).down,
            final(self).size == old(self).size,
            final(self).vers@.len() == old(self).vers@.len() + 1,
            forall|i: int| 0 <= i < old(self).vers@.len() ==> {
                &&& final(self).vers@[i] == old(self).vers@[i]
                &&& final(self).downs@[i] == old(self).downs@[i]
                &&& final(self).sizes@[i] == old(self).sizes@[i]
            },
            final(self).vers@.last()@ == tag@,
            final(self).downs@.last()@ == patch_archive_text(tag@),
            final(self).sizes@.last()@ == size_text(archive_size as nat),
    {
        self.vers.push(String::from_str(tag));
        self.downs.push(patch_archive_name(tag));
        self.sizes.push(format_size(archive_size));
    }
}

/// The manifest of `version`, whose full package has `full_size` bytes,
/// with one incremental package per entry of `patches` (a release tag and
/// the size of the package from it), in the order of `patches`.
pub fn build_manifest(version: u64, full_size: u64, patches: &Vec<(String, u64)>) -> (r: PlatformManifest)
    ensures
        r.wf(),
        r.ver@ == decimal_of(version as nat),
        r.down@ == full_archive_text(version as nat),
        r.size@ == size_text(full_size as nat),
        r.vers@.len() == patches@.len(),
        forall|i: int| 0 <= i < patches@.len() ==> {
            &&& (#[trigger] r.vers@[i])@ == patches@[i].0@
            &&& r.downs@[i]@ == patch_archive_text(patches@[i].0@)
            &&& r.sizes@[i]@ == size_text(patches@[i].1 as nat)
        },
{
    let mut m = PlatformManifest::new(version, full_size);
    let mut i: usize = 0;
    while i < patches.len()
        invariant
            i <= patches@.len(),
            m.wf(),
            m.ver@ == decimal_of(version as nat),
            m.down@ == full_archive_text(version as nat),
            m.size@ == size_text(full_size as nat),
            m.vers@.len() == i,
            forall|j: int| 0 <= j < i ==> {
                &&& (#[trigger] m.vers@[j])@ == patches@[j].0@
                &&& m.downs@[j]@ == patch_archive_text(patches@[j].0@)
                &&& m.sizes@[j]@ == size_text(patches@[j].1 as nat)
            },
        decreases patches@.len() - i,
    {
        let (tag, size) = &patches[i];
        m.add_patch(tag.as_str(), *size);
        i += 1;
    }
    m
}

} // verus!
