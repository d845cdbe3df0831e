//! File checksums: CRC-32 over a file's bytes, fed in chunks of any size,
//! written as eight uppercase hexadecimal digits.
use vstd::prelude::*;
use crate::text::string_of;

verus! {

/// The CRC-32 state after feeding `data` to a computation that stood at
/// `prev`; from `0` this is the CRC-32 of `data`.
pub uninterp spec fn crc32_update(prev: u32, data: Seq<u8>) -> u32;

/// Relies on crc32fast's `Hasher::new_with_initial`, `update` and `finalize`:
/// the CRC-32 computation resumed from `prev` over `chunk`. Feeding the
/// result of one chunk into the next is feeding both chunks at once; an
/// empty chunk leaves the state as it was.
#[verifier::external_body]
fn crc32_resume(prev: u32, chunk: &[u8]) -> (r: u32)
    ensures
        r == crc32_update(prev, chunk@),
        chunk@.len() == 0 ==> r == prev,
        forall|rest: Seq<u8>| #[trigger] crc32_update(r, rest) == crc32_update(prev, chunk@ + rest),
{
    let mut h = crc32fast::Hasher::new_with_initial(prev);
    h.update(chunk);
    h.finalize()
}

/// The uppercase hexadecimal digit of `d`.
pub open spec fn hex_char(d: nat) -> char
    recommends
        d < 16,
{
    if d < 10 {
        ((d + 48) as u8) as char
    } else {
        ((d + 55) as u8) as char
    }
}

/// The `k` lowest hexadecimal digits of `n`, most significant first.
pub open spec fn hex_digits(n: nat, k: nat) -> Seq<char>
    decreases k,
{
    if k == 0 {
        seq![]
    } else {
        hex_digits(n / 16, (k - 1) as nat).push(hex_char(n % 16))
    }
}

/// The checksum text of `data`: its CRC-32 as eight uppercase hexadecimal
/// digits.
pub open spec fn checksum_text(data: Seq<u8>) -> Seq<char> {
    hex_digits(crc32_update(0, data) as nat, 8)
}

/// `n` as eight uppercase hexadecimal digits.
pub fn hex8(n: u32) -> (r: String)
    ensures
        r@ == hex_digits(n as nat, 8),
{
    let mut rev: Vec<char> = Vec::new();
    let mut m = n;
    let mut k: usize = 0;
    while k < 8
        invariant
            k <= 8,
            rev@.len() == k,
            hex_digits(n as nat, 8) == hex_digits(m as nat, (8 - k) as nat) + rev@.reverse(),
        decreases 8 - k,
    {
        let d = (m % 16) as u8;
        let c = if d < 10 { (d + 48) as char } else { (d + 55) as char };
        assert(c == hex_char(m as nat % 16));
        let ghost r0 = rev@;
        rev.push(c);
        assert(hex_digits(m as nat, (8 - k) as nat) == hex_digits(m as nat / 16, (8 - k - 1) as nat).push(c));
        assert(hex_digits(m as nat / 16, (8 - k - 1) as nat).push(c) + r0.reverse() =~= hex_digits(m as nat / 16, (8 - k - 1) as nat) + rev@.reverse());
        m = m / 16;
        k += 1;
    }
    assert(hex_digits(m as nat, 0) + rev@.reverse() =~= rev@.reverse());
    let mut out: Vec<char> = Vec::new();
    let mut i = rev.len();
    while i > 0
        invariant
            i <= rev@.len(),
            out@ == rev@.subrange(i as int, rev@.len() as int).reverse(),
        decreases i,
    {
        i -= 1;
        out.push(rev[i]);
        assert(rev@.subrange(i as int, rev@.len() as int).reverse() =~= rev@.subrange(i + 1, rev@.len() as int).reverse().push(rev@[i as int]));
    }
    assert(rev@.subrange(0, rev@.len() as int) =~= rev@);
    assert(out@.subrange(0, out@.len() as int) =~= out@);
    string_of(out.as_slice(), 0, out.len())
}

/// A checksum being computed over bytes that arrive in chunks.
pub struct ChecksumState {
    crc: u32,
    fed: Ghost<Seq<u8>>,
}

impl ChecksumState {
    /// The bytes fed so far, in order.
    pub closed spec fn fed(&self) -> Seq<u8> {
        self.fed@
    }

    pub closed spec fn wf(&self) -> bool {
        forall|rest: Seq<u8>| #[trigger] crc32_update(self.crc, rest) == crc32_update(0, self.fed@ + rest)
    }

    /// A computation that has been fed nothing.
    pub fn new() -> (r: ChecksumState)
        ensures
            r.wf(),
            r.fed() == Seq::<u8>::empty(),
    {
        let r = ChecksumState { crc: 0, fed: Ghost(Seq::empty()) };
        assert forall|rest: Seq<u8>| #[trigger] crc32_update(r.crc, rest) == crc32_update(0, r.fed@ + rest) by {
            assert(r.fed@ + rest =~= rest);
        }
        r
    }

    /// Feeds the next chunk.
    pub fn update(&mut self, chunk: &[u8])
        requires
            old(self).wf(),
        ensures
            final(self).wf(),
            final(self).fed() == old(self).fed() + chunk@,
    {
        let ghost before = self.fed@;
        let next = crc32_resume(self.crc, chunk);
        self.crc = next;
        self.fed = Ghost(before + chunk@);
        assert forall|rest: Seq<u8>| #[trigger] crc32_update(self.crc, rest) == crc32_update(0, self.fed@ + rest) by {
            assert(crc32_update(self.crc, rest) == crc32_update(old(self).crc, chunk@ + rest));
            assert(before + (chunk@ + rest) =~= self.fed@ + rest);
        }
    }

    /// The checksum text of all the bytes fed.
    pub fn finish(&self) -> (r: String)
        requires
            self.wf(),
        ensures
            r@ == checksum_text(self.fed()),
    {
        let empty: [u8; 0] = [];
        let crc = crc32_resume(self.crc, empty.as_slice());
        assert(self.fed@ + empty@ =~= self.fed@);
        hex8(crc)
    }
}

/// The checksum text of `data`.
pub fn checksum_of(data: &[u8]) -> (r: String)
    ensures
        r@ == checksum_text(data@),
{
    let mut st = ChecksumState::new();
    st.update(data);
    assert(Seq::<u8>::empty() + data@ =~= data@);
    st.finish()
}

/// The bytes of a sequence of chunks, in order.
pub open spec fn joined(chunks: Seq<Seq<u8>>) -> Seq<u8>
    decreases chunks.len(),
{
    if chunks.len() == 0 {
        seq![]
    } else {
        joined(chunks.drop_last()) + chunks.last()
    }
}

/// Feeds `chunks` in order to a fresh computation and returns its checksum.
pub fn checksum_of_chunks(chunks: &Vec<Vec<u8>>) -> (r: String)
    ensures
        r@ == checksum_text(joined(chunks.deep_view())),
{
    let mut st = ChecksumState::new();
    let mut i: usize = 0;
    while i < chunks.len()
        invariant
            i <= chunks@.len(),
            st.wf(),
            st.fed() == joined(chunks.deep_view().subrange(0, i as int)),
        decreases chunks@.len() - i,
    {
        st.update(chunks[i].as_slice());
        assert(chunks.deep_view().subrange(0, i + 1).drop_last() =~= chunks.deep_view().subrange(0, i as int));
        i += 1;
    }
    assert(chunks.deep_view().subrange(0, chunks@.len() as int) =~= chunks.deep_view());
    st.finish()
}

} // verus!
