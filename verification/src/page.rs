//! The page: the fixed-size unit of read and write.
//!
//! A page is 4096 bytes. The first 4090 bytes are payload, free for the
//! caller; the trailing 6 bytes are reserved and hold, big-endian, the
//! page's own address, so that page-chaining schemes need no per-format
//! variation. All multi-byte integers on a page are big-endian: 8-byte
//! integers occupy 8 bytes, addresses occupy 6 bytes (48 bits).

use vstd::prelude::*;

use crate::offset::{Offset, OFFSET_LIMIT};

verus! {

/// Number of bytes in a page; all page addressing is derived from it.
pub const PAGE_SIZE: usize = 4096;

/// Bytes of a page usable by callers; the rest is the address trailer.
pub const PAGE_PAYLOAD_SIZE: usize = 4090;

/// The big-endian 8-byte encoding of a 64-bit integer.
pub open spec fn spec_u64_to_be_bytes(n: u64) -> Seq<u8> {
    seq![
        ((n >> 56) & 0xff) as u8,
        ((n >> 48) & 0xff) as u8,
        ((n >> 40) & 0xff) as u8,
        ((n >> 32) & 0xff) as u8,
        ((n >> 24) & 0xff) as u8,
        ((n >> 16) & 0xff) as u8,
        ((n >> 8) & 0xff) as u8,
        (n & 0xff) as u8,
    ]
}

/// The 64-bit integer whose big-endian encoding is the 8-byte sequence `s`.
pub open spec fn spec_u64_from_be_bytes(s: Seq<u8>) -> u64
    recommends
        s.len() == 8,
{
    ((s[0] as u64) << 56) | ((s[1] as u64) << 48) | ((s[2] as u64) << 40) | ((s[3] as u64) << 32)
        | ((s[4] as u64) << 24) | ((s[5] as u64) << 16) | ((s[6] as u64) << 8) | (s[7] as u64)
}

/// The big-endian 6-byte (48-bit) encoding of a position.
pub open spec fn spec_u48_to_be_bytes(n: u64) -> Seq<u8>
    recommends
        n < OFFSET_LIMIT,
{
    seq![
        ((n >> 40) & 0xff) as u8,
        ((n >> 32) & 0xff) as u8,
        ((n >> 24) & 0xff) as u8,
        ((n >> 16) & 0xff) as u8,
        ((n >> 8) & 0xff) as u8,
        (n & 0xff) as u8,
    ]
}

/// The position whose big-endian 48-bit encoding is the 6-byte sequence `s`.
pub open spec fn spec_u48_from_be_bytes(s: Seq<u8>) -> u64
    recommends
        s.len() == 6,
{
    ((s[0] as u64) << 40) | ((s[1] as u64) << 32) | ((s[2] as u64) << 24) | ((s[3] as u64) << 16)
        | ((s[4] as u64) << 8) | (s[5] as u64)
}

/// The content of a page after `bytes` is copied in at `pos`.
pub open spec fn spec_write(content: Seq<u8>, pos: int, bytes: Seq<u8>) -> Seq<u8>
    recommends
        0 <= pos,
        pos + bytes.len() <= content.len(),
{
    content.take(pos) + bytes + content.skip(pos + bytes.len())
}

/// The `len` bytes of a page at `pos`.
pub open spec fn spec_read(content: Seq<u8>, pos: int, len: int) -> Seq<u8>
    recommends
        0 <= pos && 0 <= len && pos + len <= content.len(),
{
    content.subrange(pos, pos + len)
}

/// The address a page's reserved trailer holds.
pub open spec fn spec_page_offset(content: Seq<u8>) -> u64
    recommends
        content.len() == PAGE_SIZE,
{
    spec_u48_from_be_bytes(
        content.subrange(PAGE_PAYLOAD_SIZE as int, PAGE_SIZE as int),
    )
}

/// Decoding the big-endian 8-byte encoding of `n` gives back `n`.
pub proof fn lemma_u64_be_round_trip(n: u64)
    ensures
        spec_u64_from_be_bytes(spec_u64_to_be_bytes(n)) == n,
{
    let s = spec_u64_to_be_bytes(n);
    assert(s[0] == ((n >> 56) & 0xff) as u8);
    assert(s[1] == ((n >> 48) & 0xff) as u8);
    assert(s[2] == ((n >> 40) & 0xff) as u8);
    assert(s[3] == ((n >> 32) & 0xff) as u8);
    assert(s[4] == ((n >> 24) & 0xff) as u8);
    assert(s[5] == ((n >> 16) & 0xff) as u8);
    assert(s[6] == ((n >> 8) & 0xff) as u8);
    assert(s[7] == (n & 0xff) as u8);
    assert((((((n >> 56) & 0xff) as u8) as u64) << 56) | (((((n >> 48) & 0xff) as u8) as u64)
        << 48) | (((((n >> 40) & 0xff) as u8) as u64) << 40) | (((((n >> 32) & 0xff) as u8) as u64)
        << 32) | (((((n >> 24) & 0xff) as u8) as u64) << 24) | (((((n >> 16) & 0xff) as u8) as u64)
        << 16) | (((((n >> 8) & 0xff) as u8) as u64) << 8) | (((n & 0xff) as u8) as u64)
        == n) by (bit_vector);
}

/// Decoding the big-endian 48-bit encoding of a position below 2^48 gives
/// back the position.
pub proof fn lemma_u48_be_round_trip(n: u64)
    requires
        n < OFFSET_LIMIT,
    ensures
        spec_u48_from_be_bytes(spec_u48_to_be_bytes(n)) == n,
{
    let s = spec_u48_to_be_bytes(n);
    assert(s[0] == ((n >> 40) & 0xff) as u8);
    assert(s[1] == ((n >> 32) & 0xff) as u8);
    assert(s[2] == ((n >> 24) & 0xff) as u8);
    assert(s[3] == ((n >> 16) & 0xff) as u8);
    assert(s[4] == ((n >> 8) & 0xff) as u8);
    assert(s[5] == (n & 0xff) as u8);
    assert(n < 0x1_0000_0000_0000 ==> (((((n >> 40) & 0xff) as u8) as u64) << 40) | (((((n >> 32)
        & 0xff) as u8) as u64) << 32) | (((((n >> 24) & 0xff) as u8) as u64) << 24) | (((((n >> 16)
        & 0xff) as u8) as u64) << 16) | (((((n >> 8) & 0xff) as u8) as u64) << 8) | (((n
        & 0xff) as u8) as u64) == n) by (bit_vector);
}

/// A 48-bit decode always yields a position below 2^48, whatever the bytes.
pub proof fn lemma_u48_from_be_bounded(s: Seq<u8>)
    requires
        s.len() == 6,
    ensures
        spec_u48_from_be_bytes(s) < OFFSET_LIMIT,
{
    let b0 = s[0];
    let b1 = s[1];
    let b2 = s[2];
    let b3 = s[3];
    let b4 = s[4];
    let b5 = s[5];
    assert(((b0 as u64) << 40) | ((b1 as u64) << 32) | ((b2 as u64) << 24) | ((b3 as u64) << 16)
        | ((b4 as u64) << 8) | (b5 as u64) < 0x1_0000_0000_0000) by (bit_vector);
}

/// Reading back a range just written yields exactly the bytes written, for
/// every position and length within the page.
pub proof fn lemma_write_read_round_trip(content: Seq<u8>, pos: int, bytes: Seq<u8>)
    requires
        content.len() == PAGE_SIZE,
        0 <= pos,
        pos + bytes.len() <= PAGE_SIZE,
    ensures
        spec_read(spec_write(content, pos, bytes), pos, bytes.len() as int) == bytes,
{
    assert(spec_read(spec_write(content, pos, bytes), pos, bytes.len() as int) =~= bytes);
}

/// Writing a 64-bit integer and reading it back at the same position yields
/// the integer, for every integer and every in-bounds position.
pub proof fn lemma_write_read_u64_round_trip(content: Seq<u8>, pos: int, n: u64)
    requires
        content.len() == PAGE_SIZE,
        0 <= pos,
        pos + 8 <= PAGE_SIZE,
    ensures
        spec_u64_from_be_bytes(
            spec_read(spec_write(content, pos, spec_u64_to_be_bytes(n)), pos, 8),
        ) == n,
{
    lemma_write_read_round_trip(content, pos, spec_u64_to_be_bytes(n));
    lemma_u64_be_round_trip(n);
}

/// Writing an address and reading it back at the same position yields the
/// address, for every address representable in 48 bits and every in-bounds
/// position.
pub proof fn lemma_write_read_offset_round_trip(content: Seq<u8>, pos: int, n: u64)
    requires
        content.len() == PAGE_SIZE,
        0 <= pos,
        pos + 6 <= PAGE_SIZE,
        n < OFFSET_LIMIT,
    ensures
        spec_u48_from_be_bytes(
            spec_read(spec_write(content, pos, spec_u48_to_be_bytes(n)), pos, 6),
        ) == n,
{
    lemma_write_read_round_trip(content, pos, spec_u48_to_be_bytes(n));
    lemma_u48_be_round_trip(n);
}

/// A page of the persistent files: the unit of storage I/O.
///
/// A page is a value, exclusively owned by its holder; cloning duplicates
/// the full 4096 bytes.
#[derive(Clone)]
pub struct Page {
    content: Vec<u8>,
}

impl View for Page {
    type V = Seq<u8>;

    closed spec fn view(&self) -> Seq<u8> {
        self.content@
    }
}

impl Page {
    /// A well-formed page holds exactly `PAGE_SIZE` bytes; its size never
    /// varies, and every positional read or write must stay within it.
    pub open spec fn wf(&self) -> bool {
        self@.len() == PAGE_SIZE
    }

    /// Create an empty page: `PAGE_SIZE` zero bytes.
    pub fn new() -> (r: Page)
        ensures
            r.wf(),
            r@ == Seq::new(PAGE_SIZE as nat, |i: int| 0u8),
    {
        let mut content: Vec<u8> = Vec::new();
        let mut i: usize = 0;
        while i < PAGE_SIZE
            invariant
                i <= PAGE_SIZE,
                content@.len() == i,
                forall|j: int| 0 <= j < i ==> content@[j] == 0u8,
            decreases PAGE_SIZE - i,
        {
            content.push(0u8);
            i = i + 1;
        }
        let r = Page { content };
        proof {
            assert(r@ =~= Seq::new(PAGE_SIZE as nat, |i: int| 0u8));
        }
        r
    }

    /// Create a page from a buffer read from storage, taken verbatim; the
    /// content is not validated here, that is the backing store's business.
    pub fn from_buf(content: Vec<u8>) -> (r: Page)
        requires
            content@.len() == PAGE_SIZE,
        ensures
            r.wf(),
            r@ == content@,
    {
        Page { content }
    }

    /// Consume the page, yielding the raw buffer for persistence.
    pub fn into_buf(self) -> (r: Vec<u8>)
        ensures
            r@ == self@,
    {
        self.content
    }

    /// The byte at a position.
    pub(crate) fn byte(&self, pos: usize) -> (r: u8)
        requires
            self.wf(),
            pos < PAGE_SIZE,
        ensures
            r == self@[pos as int],
    {
        self.content[pos]
    }

    /// Copy `slice` into the page at `pos`; the range must lie within the
    /// page.
    pub fn write(&mut self, pos: usize, slice: &Vec<u8>)
        requires
            old(self).wf(),
            pos + slice@.len() <= PAGE_SIZE,
        ensures
            final(self).wf(),
            final(self)@ == spec_write(old(self)@, pos as int, slice@),
    {
        let len: usize = slice.len();
        let mut i: usize = 0;
        while i < len
            invariant
                i <= len,
                len == slice@.len(),
                pos + len <= PAGE_SIZE,
                self@.len() == PAGE_SIZE,
                forall|j: int| 0 <= j < i ==> self@[pos + j] == slice@[j],
                forall|j: int|
                    0 <= j < PAGE_SIZE && !(pos <= j < pos + i) ==> self@[j] == old(self)@[j],
            decreases len - i,
        {
            self.content.set(pos + i, slice[i]);
            i = i + 1;
        }
        proof {
            assert(final(self)@ =~= spec_write(old(self)@, pos as int, slice@));
        }
    }

    /// Fill the caller-supplied buffer from the page at `pos`; the range
    /// must lie within the page. The buffer keeps its length.
    pub fn read(&self, pos: usize, buf: &mut Vec<u8>)
        requires
            self.wf(),
            pos + old(buf)@.len() <= PAGE_SIZE,
        ensures
            final(buf)@.len() == old(buf)@.len(),
            final(buf)@ == spec_read(self@, pos as int, old(buf)@.len() as int),
    {
        let len: usize = buf.len();
        let mut i: usize = 0;
        while i < len
            invariant
                i <= len,
                len == buf@.len(),
                pos + len <= PAGE_SIZE,
                self.wf(),
                forall|j: int| 0 <= j < i ==> buf@[j] == self@[pos + j],
            decreases len - i,
        {
            buf.set(i, self.content[pos + i]);
            i = i + 1;
        }
        proof {
            assert(final(buf)@ =~= spec_read(self@, pos as int, len as int));
        }
    }

    /// Write an 8-byte big-endian integer at `pos`.
    pub fn write_u64(&mut self, pos: usize, n: u64)
        requires
            old(self).wf(),
            pos + 8 <= PAGE_SIZE,
        ensures
            final(self).wf(),
            final(self)@ == spec_write(old(self)@, pos as int, spec_u64_to_be_bytes(n)),
    {
        self.content.set(pos, ((n >> 56) & 0xff) as u8);
        self.content.set(pos + 1, ((n >> 48) & 0xff) as u8);
        self.content.set(pos + 2, ((n >> 40) & 0xff) as u8);
        self.content.set(pos + 3, ((n >> 32) & 0xff) as u8);
        self.content.set(pos + 4, ((n >> 24) & 0xff) as u8);
        self.content.set(pos + 5, ((n >> 16) & 0xff) as u8);
        self.content.set(pos + 6, ((n >> 8) & 0xff) as u8);
        self.content.set(pos + 7, (n & 0xff) as u8);
        proof {
            assert(final(self)@ =~= spec_write(old(self)@, pos as int, spec_u64_to_be_bytes(n)));
        }
    }

    /// Read the 8-byte big-endian integer at `pos`.
    pub fn read_u64(&self, pos: usize) -> (r: u64)
        requires
            self.wf(),
            pos + 8 <= PAGE_SIZE,
        ensures
            r == spec_u64_from_be_bytes(spec_read(self@, pos as int, 8)),
    {
        let r: u64 = ((self.content[pos] as u64) << 56) | ((self.content[pos + 1] as u64) << 48)
            | ((self.content[pos + 2] as u64) << 40) | ((self.content[pos + 3] as u64) << 32) | ((
        self.content[pos + 4] as u64) << 24) | ((self.content[pos + 5] as u64) << 16) | ((
        self.content[pos + 6] as u64) << 8) | (self.content[pos + 7] as u64);
        proof {
            let s = spec_read(self@, pos as int, 8);
            assert(s[0] == self@[pos as int]);
            assert(s[1] == self@[pos + 1]);
            assert(s[2] == self@[pos + 2]);
            assert(s[3] == self@[pos + 3]);
            assert(s[4] == self@[pos + 4]);
            assert(s[5] == self@[pos + 5]);
            assert(s[6] == self@[pos + 6]);
            assert(s[7] == self@[pos + 7]);
        }
        r
    }

    /// Write an address at `pos` as 6 big-endian bytes (48 bits). The high
    /// 16 bits of the 64-bit position are never written; a well-formed
    /// address has none, so nothing is lost.
    pub fn write_offset(&mut self, pos: usize, offset: Offset)
        requires
            old(self).wf(),
            offset.wf(),
            pos + 6 <= PAGE_SIZE,
        ensures
            final(self).wf(),
            final(self)@ == spec_write(
                old(self)@,
                pos as int,
                spec_u48_to_be_bytes(offset.spec_as_u64()),
            ),
    {
        let n: u64 = offset.as_u64();
        self.content.set(pos, ((n >> 40) & 0xff) as u8);
        self.content.set(pos + 1, ((n >> 32) & 0xff) as u8);
        self.content.set(pos + 2, ((n >> 24) & 0xff) as u8);
        self.content.set(pos + 3, ((n >> 16) & 0xff) as u8);
        self.content.set(pos + 4, ((n >> 8) & 0xff) as u8);
        self.content.set(pos + 5, (n & 0xff) as u8);
        proof {
            assert(final(self)@ =~= spec_write(
                old(self)@,
                pos as int,
                spec_u48_to_be_bytes(n),
            ));
        }
    }

    /// Read the address encoded as 6 big-endian bytes at `pos`.
    pub fn read_offset(&self, pos: usize) -> (r: Offset)
        requires
            self.wf(),
            pos + 6 <= PAGE_SIZE,
        ensures
            r.wf(),
            r.spec_as_u64() == spec_u48_from_be_bytes(spec_read(self@, pos as int, 6)),
    {
        let b0: u8 = self.content[pos];
        let b1: u8 = self.content[pos + 1];
        let b2: u8 = self.content[pos + 2];
        let b3: u8 = self.content[pos + 3];
        let b4: u8 = self.content[pos + 4];
        let b5: u8 = self.content[pos + 5];
        let n: u64 = ((b0 as u64) << 40) | ((b1 as u64) << 32) | ((b2 as u64) << 24) | ((
        b3 as u64) << 16) | ((b4 as u64) << 8) | (b5 as u64);
        proof {
            assert(((b0 as u64) << 40) | ((b1 as u64) << 32) | ((b2 as u64) << 24) | ((b3 as u64)
                << 16) | ((b4 as u64) << 8) | (b5 as u64) < 0x1_0000_0000_0000) by (bit_vector);
            let s = spec_read(self@, pos as int, 6);
            assert(s[0] == self@[pos as int]);
            assert(s[1] == self@[pos + 1]);
            assert(s[2] == self@[pos + 2]);
            assert(s[3] == self@[pos + 3]);
            assert(s[4] == self@[pos + 4]);
            assert(s[5] == self@[pos + 5]);
        }
        Offset::from(n)
    }

    /// The page's own address: the reserved trailer, interpreted as an
    /// address.
    pub fn offset(&self) -> (r: Offset)
        requires
            self.wf(),
        ensures
            r.wf(),
            r.spec_as_u64() == spec_page_offset(self@),
    {
        self.read_offset(PAGE_PAYLOAD_SIZE)
    }
}

} // verus!
