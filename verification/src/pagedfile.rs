//! The contracts a backing store must satisfy to be read and written one
//! page at a time, and the sequential consumer of such a store.
//!
//! `FileOps` is the lifecycle a backing store owes; `PagedFile` adds
//! page-wise read and append; `RandomWritePagedFile` adds in-place page
//! rewrite. The capabilities are kept separate so that an append-only store
//! (a log) is never asked to implement in-place rewrite.
//!
//! A store is modelled by its logical byte contents, a sequence the trait's
//! `contents` names; every method's contract speaks of that sequence.

use vstd::prelude::*;
use vstd::arithmetic::div_mod::{
    lemma_div_by_multiple, lemma_div_is_ordered, lemma_div_multiples_vanish_fancy,
    lemma_fundamental_div_mod, lemma_mod_division_less_than_divisor, lemma_mod_multiples_basic,
    lemma_mod_sub_multiples_vanish,
};
use vstd::arithmetic::mul::lemma_mul_inequality;

use crate::error::StoreError;
use crate::offset::{Offset, OFFSET_LIMIT};
use crate::page::{Page, PAGE_PAYLOAD_SIZE, PAGE_SIZE, spec_page_offset, spec_write};

verus! {

/// Number of pages in the 48-bit address space: `OFFSET_LIMIT / PAGE_SIZE`
/// (2^36). No page at or past this number can be addressed.
pub const PAGE_NUMBER_LIMIT: u64 = 0x10_0000_0000;

/// Largest page number the page-sequence mode will read: a fixed ceiling of
/// 2^35 bytes of addressable store divided by `PAGE_SIZE` (2^23).
pub const PAGE_SEQ_LIMIT: u64 = 0x80_0000;

/// Whether a full page with this page number lies within the contents.
pub open spec fn page_exists(contents: Seq<u8>, pagenumber: int) -> bool {
    0 <= pagenumber && (pagenumber + 1) * PAGE_SIZE <= contents.len()
}

/// The bytes of the page with this page number.
pub open spec fn page_at(contents: Seq<u8>, pagenumber: int) -> Seq<u8>
    recommends
        page_exists(contents, pagenumber),
{
    contents.subrange(pagenumber * PAGE_SIZE, pagenumber * PAGE_SIZE + PAGE_SIZE)
}

/// How many full pages the contents hold.
pub open spec fn num_pages(contents: Seq<u8>) -> int {
    contents.len() as int / PAGE_SIZE as int
}

/// The continuous logical byte stream over the contents: the payloads of
/// the full pages, concatenated in page order, trailers left out.
pub open spec fn payload_stream(contents: Seq<u8>) -> Seq<u8>
    decreases contents.len(),
{
    if contents.len() < PAGE_SIZE {
        Seq::empty()
    } else {
        contents.subrange(0, PAGE_PAYLOAD_SIZE as int) + payload_stream(
            contents.skip(PAGE_SIZE as int),
        )
    }
}

/// The contents after the store is truncated to `new_len` bytes: cut short
/// when shrinking, zero-filled when growing.
pub open spec fn spec_truncate(contents: Seq<u8>, new_len: int) -> Seq<u8>
    recommends
        0 <= new_len,
{
    if new_len <= contents.len() {
        contents.take(new_len)
    } else {
        contents + Seq::new((new_len - contents.len()) as nat, |i: int| 0u8)
    }
}

/// A full page lies within the contents exactly when its number is below
/// the page count.
pub proof fn lemma_page_exists_iff(contents: Seq<u8>, pagenumber: int)
    ensures
        page_exists(contents, pagenumber) <==> 0 <= pagenumber && pagenumber < num_pages(contents),
{
    let len = contents.len() as int;
    if page_exists(contents, pagenumber) {
        lemma_div_is_ordered((pagenumber + 1) * PAGE_SIZE as int, len, PAGE_SIZE as int);
        lemma_div_by_multiple(pagenumber + 1, PAGE_SIZE as int);
    }
    if 0 <= pagenumber && pagenumber < num_pages(contents) {
        lemma_fundamental_div_mod(len, PAGE_SIZE as int);
        lemma_mod_division_less_than_divisor(len, PAGE_SIZE as int);
        lemma_mul_inequality(pagenumber + 1, len / PAGE_SIZE as int, PAGE_SIZE as int);
    }
}

/// Dropping one leading page from the contents drops one from the count.
proof fn lemma_num_pages_skip(contents: Seq<u8>)
    requires
        contents.len() >= PAGE_SIZE,
    ensures
        num_pages(contents.skip(PAGE_SIZE as int)) == num_pages(contents) - 1,
{
    let len = contents.len() as int;
    lemma_fundamental_div_mod(len, PAGE_SIZE as int);
    lemma_mod_division_less_than_divisor(len, PAGE_SIZE as int);
    let q = len / PAGE_SIZE as int;
    let r = len % PAGE_SIZE as int;
    assert(len - PAGE_SIZE == PAGE_SIZE * (q - 1) + r) by {
        assert(PAGE_SIZE * (q - 1) == PAGE_SIZE * q - PAGE_SIZE);
    }
    lemma_div_multiples_vanish_fancy(q - 1, r, PAGE_SIZE as int);
}

/// The byte stream is as long as the page count times the payload size.
pub proof fn lemma_payload_stream_len(contents: Seq<u8>)
    ensures
        payload_stream(contents).len() == num_pages(contents) * PAGE_PAYLOAD_SIZE,
        num_pages(contents) >= 0,
    decreases contents.len(),
{
    let len = contents.len() as int;
    if len < PAGE_SIZE {
        assert(len / PAGE_SIZE as int == 0) by {
            lemma_fundamental_div_mod(len, PAGE_SIZE as int);
            lemma_mod_division_less_than_divisor(len, PAGE_SIZE as int);
            lemma_div_multiples_vanish_fancy(0, len, PAGE_SIZE as int);
        }
    } else {
        lemma_payload_stream_len(contents.skip(PAGE_SIZE as int));
        lemma_num_pages_skip(contents);
        let q = num_pages(contents);
        assert((q - 1) * PAGE_PAYLOAD_SIZE + PAGE_PAYLOAD_SIZE == q * PAGE_PAYLOAD_SIZE);
    }
}

/// A byte of the stream is the corresponding payload byte of its page.
pub proof fn lemma_payload_stream_index(contents: Seq<u8>, pagenumber: int, i: int)
    requires
        page_exists(contents, pagenumber),
        0 <= i < PAGE_PAYLOAD_SIZE,
    ensures
        0 <= pagenumber * PAGE_PAYLOAD_SIZE + i < payload_stream(contents).len(),
        payload_stream(contents)[pagenumber * PAGE_PAYLOAD_SIZE + i] == contents[pagenumber
            * PAGE_SIZE + i],
    decreases pagenumber,
{
    lemma_payload_stream_len(contents);
    lemma_page_exists_iff(contents, pagenumber);
    assert((pagenumber + 1) * PAGE_PAYLOAD_SIZE <= num_pages(contents) * PAGE_PAYLOAD_SIZE) by {
        lemma_mul_inequality(pagenumber + 1, num_pages(contents), PAGE_PAYLOAD_SIZE as int);
    }
    assert(contents.len() >= PAGE_SIZE) by {
        lemma_mul_inequality(1, pagenumber + 1, PAGE_SIZE as int);
    }
    if pagenumber == 0 {
    } else {
        let rest = contents.skip(PAGE_SIZE as int);
        assert((pagenumber + 1) * PAGE_SIZE - PAGE_SIZE == pagenumber * PAGE_SIZE);
        assert(page_exists(rest, pagenumber - 1));
        lemma_payload_stream_index(rest, pagenumber - 1, i);
        assert(rest[(pagenumber - 1) * PAGE_SIZE + i] == contents[pagenumber * PAGE_SIZE + i]);
    }
}

/// Appending one page to page-aligned contents keeps every earlier page in
/// place and puts the new page at the old page count: pages come back in
/// append order.
pub proof fn lemma_append_page_pages(contents: Seq<u8>, page: Seq<u8>)
    requires
        contents.len() as int % PAGE_SIZE as int == 0,
        page.len() == PAGE_SIZE,
    ensures
        num_pages(contents + page) == num_pages(contents) + 1,
        page_exists(contents + page, num_pages(contents)),
        page_at(contents + page, num_pages(contents)) == page,
        forall|k: int|
            0 <= k < num_pages(contents) ==> page_exists(contents + page, k) && page_at(
                contents + page,
                k,
            ) == page_at(contents, k),
        forall|k: int| k > num_pages(contents) ==> !page_exists(contents + page, k),
{
    let len = contents.len() as int;
    let q = num_pages(contents);
    assert(len == PAGE_SIZE * q) by {
        lemma_fundamental_div_mod(len, PAGE_SIZE as int);
    }
    assert(num_pages(contents + page) == q + 1) by {
        lemma_div_multiples_vanish_fancy(q + 1, 0, PAGE_SIZE as int);
        assert(PAGE_SIZE * (q + 1) == PAGE_SIZE * q + PAGE_SIZE);
    }
    lemma_page_exists_iff(contents + page, q);
    assert(page_at(contents + page, q) =~= page);
    assert forall|k: int| 0 <= k < q implies page_exists(contents + page, k) && page_at(
        contents + page,
        k,
    ) =~= page_at(contents, k) by {
        lemma_page_exists_iff(contents, k);
        lemma_page_exists_iff(contents + page, k);
        lemma_mul_inequality(k + 1, q, PAGE_SIZE as int);
    }
    assert forall|k: int| k > q implies !page_exists(contents + page, k) by {
        lemma_page_exists_iff(contents + page, k);
    }
}

/// A store holding nothing but appended pages holds exactly those pages,
/// each under the number it was appended as, and none past them: iterating
/// by page number yields the pages in append order, then stops.
pub proof fn lemma_appended_pages_in_order(pages: Seq<Seq<u8>>)
    requires
        forall|k: int| 0 <= k < pages.len() ==> (#[trigger] pages[k]).len() == PAGE_SIZE,
    ensures
        pages.flatten().len() == pages.len() * PAGE_SIZE,
        num_pages(pages.flatten()) == pages.len(),
        forall|k: int|
            0 <= k < pages.len() ==> page_exists(pages.flatten(), k) && page_at(
                pages.flatten(),
                k,
            ) == pages[k],
        forall|k: int| k >= pages.len() ==> !page_exists(pages.flatten(), k),
    decreases pages.len(),
{
    if pages.len() == 0 {
        assert(pages.flatten() =~= Seq::<u8>::empty());
        lemma_div_multiples_vanish_fancy(0, 0, PAGE_SIZE as int);
        assert forall|k: int| k >= 0 implies !page_exists(pages.flatten(), k) by {
            lemma_page_exists_iff(pages.flatten(), k);
        }
    } else {
        let front = pages.drop_last();
        let last = pages.last();
        lemma_appended_pages_in_order(front);
        pages.lemma_flatten_and_flatten_alt_are_equivalent();
        front.lemma_flatten_and_flatten_alt_are_equivalent();
        assert(pages.flatten_alt() == front.flatten_alt() + last);
        assert(front.flatten().len() as int % PAGE_SIZE as int == 0) by {
            lemma_mod_multiples_basic(front.len() as int, PAGE_SIZE as int);
        }
        lemma_append_page_pages(front.flatten(), last);
        assert(pages.flatten() == front.flatten() + last);
        assert((front.len() + 1) * PAGE_SIZE == front.len() * PAGE_SIZE + PAGE_SIZE);
        assert forall|k: int| 0 <= k < pages.len() implies page_exists(pages.flatten(), k)
            && page_at(pages.flatten(), k) == pages[k] by {
            if k < front.len() {
                assert(page_at(front.flatten() + last, k) == page_at(front.flatten(), k));
                assert(front[k] == pages[k]);
            } else {
                assert(k == front.len());
            }
        }
    }
}

/// Appending one page to page-aligned contents appends exactly its payload
/// to the byte stream.
pub proof fn lemma_append_page_stream(contents: Seq<u8>, page: Seq<u8>)
    requires
        contents.len() as int % PAGE_SIZE as int == 0,
        page.len() == PAGE_SIZE,
    ensures
        payload_stream(contents + page) == payload_stream(contents) + page.subrange(
            0,
            PAGE_PAYLOAD_SIZE as int,
        ),
    decreases contents.len(),
{
    let len = contents.len() as int;
    if len == 0 {
        let whole = contents + page;
        assert(whole.len() == PAGE_SIZE);
        assert(whole.skip(PAGE_SIZE as int).len() == 0);
        assert(payload_stream(whole.skip(PAGE_SIZE as int)) == Seq::<u8>::empty());
        assert(payload_stream(whole) == whole.subrange(0, PAGE_PAYLOAD_SIZE as int)
            + payload_stream(whole.skip(PAGE_SIZE as int)));
        assert(whole.subrange(0, PAGE_PAYLOAD_SIZE as int) =~= page.subrange(
            0,
            PAGE_PAYLOAD_SIZE as int,
        ));
        assert(payload_stream(contents) == Seq::<u8>::empty());
        assert(payload_stream(contents + page) =~= payload_stream(contents) + page.subrange(
            0,
            PAGE_PAYLOAD_SIZE as int,
        ));
    } else {
        assert(len >= PAGE_SIZE) by {
            lemma_fundamental_div_mod(len, PAGE_SIZE as int);
            lemma_mod_division_less_than_divisor(len, PAGE_SIZE as int);
            if num_pages(contents) <= 0 {
                lemma_mul_inequality(num_pages(contents), 0, PAGE_SIZE as int);
            } else {
                lemma_mul_inequality(1, num_pages(contents), PAGE_SIZE as int);
            }
        }
        let rest = contents.skip(PAGE_SIZE as int);
        assert(rest.len() as int % PAGE_SIZE as int == 0) by {
            lemma_mod_sub_multiples_vanish(len, PAGE_SIZE as int);
        }
        lemma_append_page_stream(rest, page);
        assert((contents + page).skip(PAGE_SIZE as int) =~= rest + page);
        assert((contents + page).subrange(0, PAGE_PAYLOAD_SIZE as int) =~= contents.subrange(
            0,
            PAGE_PAYLOAD_SIZE as int,
        ));
        assert(payload_stream(contents + page) =~= payload_stream(contents) + page.subrange(
            0,
            PAGE_PAYLOAD_SIZE as int,
        ));
    }
}

/// No full page lies at an address at or beyond the end of the contents.
pub proof fn lemma_no_page_beyond_len(contents: Seq<u8>, addr: int)
    requires
        addr >= contents.len(),
        0 <= addr,
    ensures
        !page_exists(contents, addr / PAGE_SIZE as int),
{
    let pn = addr / PAGE_SIZE as int;
    lemma_fundamental_div_mod(addr, PAGE_SIZE as int);
    lemma_mod_division_less_than_divisor(addr, PAGE_SIZE as int);
    assert((pn + 1) * PAGE_SIZE == PAGE_SIZE * pn + PAGE_SIZE);
}

/// After shrinking the contents, no full page lies at an address at or
/// beyond the new length.
pub proof fn lemma_truncate_hides_beyond(contents: Seq<u8>, new_len: int, addr: int)
    requires
        0 <= new_len <= contents.len(),
        new_len <= addr,
    ensures
        !page_exists(spec_truncate(contents, new_len), addr / PAGE_SIZE as int),
{
    lemma_no_page_beyond_len(spec_truncate(contents, new_len), addr);
}

/// The lifecycle a backing store owes: flush, length, truncate, sync and
/// shutdown, specified over the store's logical byte contents.
pub trait FileOps: Sized {
    /// The implementation's invariant; every operation keeps it.
    spec fn inv(&self) -> bool;

    /// The logical byte contents of the store.
    spec fn contents(&self) -> Seq<u8>;

    /// Every byte of a store lies in the 48-bit address space.
    proof fn contents_bounded(&self)
        requires
            self.inv(),
        ensures
            self.contents().len() <= OFFSET_LIMIT,
    ;

    /// Push buffered but unwritten data into the backing store. The logical
    /// contents do not change; a failure of the store is reported as is.
    fn flush(&mut self) -> (r: Result<(), StoreError>)
        requires
            old(self).inv(),
        ensures
            final(self).inv(),
            final(self).contents() == old(self).contents(),
    ;

    /// The current logical length in bytes.
    fn len(&self) -> (r: Result<u64, StoreError>)
        requires
            self.inv(),
        ensures
            r matches Ok(l) ==> l == self.contents().len(),
    ;

    /// Shrink or extend the logical length; a grown region reads as zero
    /// bytes.
    fn truncate(&mut self, new_len: u64) -> (r: Result<(), StoreError>)
        requires
            old(self).inv(),
        ensures
            final(self).inv(),
            r matches Ok(_) ==> final(self).contents() == spec_truncate(
                old(self).contents(),
                new_len as int,
            ),
    ;

    /// Ask the storage medium to make flushed data durable.
    fn sync(&self) -> (r: Result<(), StoreError>)
        requires
            self.inv(),
    ;

    /// Terminate any background write activity so the store can be dropped.
    fn shutdown(&mut self)
        requires
            old(self).inv(),
        ensures
            final(self).inv(),
            final(self).contents() == old(self).contents(),
    ;
}

/// A store accessed by pages: read one, append one. An implementation must
/// be safe to share across threads for reads; mutation asks the caller for
/// exclusive access, which Rust's `&mut` already enforces.
pub trait PagedFile: FileOps + Send + Sync {
    /// Read the full page the address falls in. Absence of such a page —
    /// the address at or beyond the current length — is `None`, not an
    /// error; only a genuine read failure is an error.
    fn read_page(&self, offset: Offset) -> (r: Result<Option<Page>, StoreError>)
        requires
            self.inv(),
            offset.wf(),
        ensures
            r matches Ok(Some(p)) ==> {
                &&& p.wf()
                &&& page_exists(self.contents(), offset.spec_as_u64() as int / PAGE_SIZE as int)
                &&& p@ == page_at(self.contents(), offset.spec_as_u64() as int / PAGE_SIZE as int)
            },
            r matches Ok(None) ==> !page_exists(
                self.contents(),
                offset.spec_as_u64() as int / PAGE_SIZE as int,
            ),
    ;

    /// Append the page at the current end of the store, extending the
    /// length by exactly one page.
    fn append_page(&mut self, page: Page) -> (r: Result<(), StoreError>)
        requires
            old(self).inv(),
            page.wf(),
        ensures
            final(self).inv(),
            r matches Ok(_) ==> final(self).contents() == old(self).contents() + page@,
    ;
}

/// A store that additionally rewrites a page in place.
pub trait RandomWritePagedFile: PagedFile {
    /// Overwrite the page at the page's own address — the one its reserved
    /// trailer holds — and return the numeric position written.
    fn write_page(&mut self, page: Page) -> (r: Result<u64, StoreError>)
        requires
            old(self).inv(),
            page.wf(),
            page_exists(
                old(self).contents(),
                spec_page_offset(page@) as int / PAGE_SIZE as int,
            ),
        ensures
            final(self).inv(),
            r matches Ok(pos) ==> {
                let pn = spec_page_offset(page@) as int / PAGE_SIZE as int;
                &&& pos == pn * PAGE_SIZE
                &&& final(self).contents() == spec_write(
                    old(self).contents(),
                    pn * PAGE_SIZE,
                    page@,
                )
            },
    ;
}

/// A sequential consumer of a paged file, holding a non-owning handle to
/// the store it iterates; it is valid only while the store outlives it.
///
/// One cursor carries two views: a page-at-a-time sequence (`next`) and a
/// byte stream spanning page boundaries (`read`). The cursor only moves
/// forward; to reposition, create a new iterator.
pub struct PagedFileIterator<'file, F: PagedFile> {
    // the current page number of the iterator
    pagenumber: u64,
    // the current page, if materialized
    page: Option<Page>,
    // position on the current page
    pos: usize,
    // the iterated file
    file: &'file F,
}

impl<'file, F: PagedFile> PagedFileIterator<'file, F> {
    /// The page number the cursor stands on.
    pub closed spec fn spec_pagenumber(&self) -> u64 {
        self.pagenumber
    }

    /// The byte position within that page.
    pub closed spec fn spec_pos(&self) -> usize {
        self.pos
    }

    /// The file being iterated.
    pub closed spec fn spec_file(&self) -> &'file F {
        self.file
    }

    /// The materialized page, when there is one, belongs to the cursor's
    /// page number.
    pub closed spec fn cache_consistent(&self) -> bool {
        self.page matches Some(p) ==> {
            &&& p.wf()
            &&& page_exists(self.file.contents(), self.pagenumber as int)
            &&& p@ == page_at(self.file.contents(), self.pagenumber as int)
        }
    }

    /// A well-formed cursor: the store's invariant holds, the page number
    /// stays within the address space, the in-page position within a page.
    pub open spec fn wf(&self) -> bool {
        &&& self.spec_file().inv()
        &&& self.spec_pagenumber() <= PAGE_NUMBER_LIMIT
        &&& self.spec_pos() < PAGE_SIZE
        &&& self.cache_consistent()
    }

    /// Where the cursor stands in the payload byte stream. An in-page
    /// position inside the trailer counts as the end of its page's payload,
    /// since the stream never exposes a trailer byte.
    pub open spec fn stream_pos(&self) -> int {
        self.spec_pagenumber() as int * PAGE_PAYLOAD_SIZE as int + if self.spec_pos()
            <= PAGE_PAYLOAD_SIZE {
            self.spec_pos() as int
        } else {
            PAGE_PAYLOAD_SIZE as int
        }
    }

    /// Create an iterator positioned at the given address.
    pub fn new(file: &'file F, offset: Offset) -> (r: Self)
        requires
            file.inv(),
            offset.wf(),
        ensures
            r.wf(),
            r.spec_file() == file,
            r.spec_pagenumber() == offset.spec_as_u64() as int / PAGE_SIZE as int,
            r.spec_pos() == offset.spec_as_u64() as int % PAGE_SIZE as int,
    {
        let pagenumber: u64 = offset.page_number();
        let pos: usize = offset.in_page_pos();
        proof {
            lemma_div_is_ordered(
                offset.spec_as_u64() as int,
                OFFSET_LIMIT as int - 1,
                PAGE_SIZE as int,
            );
            lemma_div_multiples_vanish_fancy(
                PAGE_NUMBER_LIMIT as int - 1,
                PAGE_SIZE as int - 1,
                PAGE_SIZE as int,
            );
            lemma_mod_division_less_than_divisor(offset.spec_as_u64() as int, PAGE_SIZE as int);
        }
        PagedFileIterator { pagenumber, page: None, pos, file }
    }

    /// The address the next byte-stream read would start from:
    /// `pagenumber * PAGE_SIZE + pos`. Meaningful while the cursor is still
    /// within the 48-bit address space.
    pub fn position(&self) -> (r: Offset)
        requires
            self.wf(),
            self.spec_pagenumber() as int * PAGE_SIZE as int + self.spec_pos() < OFFSET_LIMIT,
        ensures
            r.wf(),
            r.spec_as_u64() == self.spec_pagenumber() as int * PAGE_SIZE as int + self.spec_pos(),
    {
        Offset::from(self.pagenumber * (PAGE_SIZE as u64) + (self.pos as u64))
    }

    /// Page-sequence mode: read the page at the current page number,
    /// advance by one and yield it. Produces nothing once the page number
    /// passes a fixed ceiling, the store has no full page there, or the
    /// store fails; the in-page position is untouched.
    pub fn next(&mut self) -> (r: Option<Page>)
        requires
            old(self).wf(),
        ensures
            final(self).wf(),
            final(self).spec_file() == old(self).spec_file(),
            final(self).spec_pos() == old(self).spec_pos(),
            r matches Some(p) ==> {
                &&& old(self).spec_pagenumber() <= PAGE_SEQ_LIMIT
                &&& page_exists(
                    old(self).spec_file().contents(),
                    old(self).spec_pagenumber() as int,
                )
                &&& p.wf()
                &&& p@ == page_at(old(self).spec_file().contents(), old(self).spec_pagenumber() as int)
                &&& final(self).spec_pagenumber() == old(self).spec_pagenumber() + 1
            },
            r is None ==> final(self).spec_pagenumber() == old(self).spec_pagenumber(),
            (old(self).spec_pagenumber() > PAGE_SEQ_LIMIT || !page_exists(
                old(self).spec_file().contents(),
                old(self).spec_pagenumber() as int,
            )) ==> r is None,
    {
        if self.pagenumber <= PAGE_SEQ_LIMIT {
            proof {
                assert(self.pagenumber as int * PAGE_SIZE as int <= 0x8_0000_0000int);
            }
            let offset = Offset::from(self.pagenumber * (PAGE_SIZE as u64));
            proof {
                lemma_div_by_multiple(self.pagenumber as int, PAGE_SIZE as int);
            }
            match self.file.read_page(offset) {
                Ok(Some(page)) => {
                    self.pagenumber = self.pagenumber + 1;
                    self.page = None;
                    return Some(page);
                },
                _ => {
                },
            }
        }
        None
    }

    /// Byte-stream mode: fill the caller-supplied buffer from the payload
    /// region of the current page, moving to the next page whenever a
    /// payload is exhausted; no trailer byte is ever handed out. When the
    /// end of the store is reached mid-fill, the number of bytes actually
    /// filled is returned — a short read is normal termination, not an
    /// error. Only a failure of the store is an error.
    pub fn read(&mut self, buf: &mut Vec<u8>) -> (r: Result<usize, StoreError>)
        requires
            old(self).wf(),
        ensures
            final(self).wf(),
            final(self).spec_file() == old(self).spec_file(),
            final(self).spec_pagenumber() >= old(self).spec_pagenumber(),
            final(buf)@.len() == old(buf)@.len(),
            r matches Ok(n) ==> {
                let stream = payload_stream(old(self).spec_file().contents());
                let start = old(self).stream_pos();
                let avail = if start <= stream.len() {
                    stream.len() - start
                } else {
                    0int
                };
                &&& 0 <= n <= old(buf)@.len()
                &&& n == if old(buf)@.len() <= avail {
                    old(buf)@.len() as int
                } else {
                    avail
                }
                &&& forall|i: int| 0 <= i < n ==> final(buf)@[i] == stream[start + i]
                &&& forall|i: int| n <= i < old(buf)@.len() ==> final(buf)@[i] == old(buf)@[i]
                &&& final(self).stream_pos() == start + n
            },
    {
        let ghost contents = self.file.contents();
        let ghost stream = payload_stream(contents);
        let ghost start = self.stream_pos();
        proof {
            self.file.contents_bounded();
            lemma_payload_stream_len(contents);
            assert(num_pages(contents) <= PAGE_NUMBER_LIMIT) by {
                lemma_div_is_ordered(contents.len() as int, OFFSET_LIMIT as int, PAGE_SIZE as int);
                lemma_div_by_multiple(PAGE_NUMBER_LIMIT as int, PAGE_SIZE as int);
                assert(PAGE_NUMBER_LIMIT as int * PAGE_SIZE as int == OFFSET_LIMIT as int);
            }
        }
        let len: usize = buf.len();
        let mut read: usize = 0;
        loop
            invariant
                self.wf(),
                self.spec_file() == old(self).spec_file(),
                contents == old(self).spec_file().contents(),
                stream == payload_stream(contents),
                stream.len() == num_pages(contents) * PAGE_PAYLOAD_SIZE,
                0 <= num_pages(contents) <= PAGE_NUMBER_LIMIT,
                buf@.len() == len,
                len == old(buf)@.len(),
                read <= len,
                start == old(self).stream_pos(),
                self.spec_pagenumber() >= old(self).spec_pagenumber(),
                self.stream_pos() == start + read,
                read > 0 ==> start + read <= stream.len(),
                forall|i: int| 0 <= i < read ==> buf@[i] == stream[start + i],
                forall|i: int| read <= i < len ==> buf@[i] == old(buf)@[i],
            decreases
                    len - read,
                    (if self.spec_pos() >= PAGE_PAYLOAD_SIZE {
                        1int
                    } else {
                        0int
                    }),
        {
            if read == len {
                return Ok(read);
            }
            if self.pos >= PAGE_PAYLOAD_SIZE {
                if self.pagenumber >= PAGE_NUMBER_LIMIT {
                    proof {
                        lemma_mul_inequality(
                            num_pages(contents),
                            PAGE_NUMBER_LIMIT as int,
                            PAGE_PAYLOAD_SIZE as int,
                        );
                    }
                    return Ok(read);
                }
                self.page = None;
                self.pagenumber = self.pagenumber + 1;
                self.pos = 0;
            } else {
                if self.page.is_none() {
                    if self.pagenumber >= PAGE_NUMBER_LIMIT {
                        proof {
                            lemma_mul_inequality(
                                num_pages(contents),
                                PAGE_NUMBER_LIMIT as int,
                                PAGE_PAYLOAD_SIZE as int,
                            );
                        }
                        return Ok(read);
                    }
                    proof {
                        lemma_mul_inequality(
                            self.spec_pagenumber() as int,
                            PAGE_NUMBER_LIMIT as int - 1,
                            PAGE_SIZE as int,
                        );
                        assert(((PAGE_NUMBER_LIMIT as int - 1) * (PAGE_SIZE as int)) < (
                        OFFSET_LIMIT as int));
                    }
                    let offset = Offset::from(self.pagenumber * (PAGE_SIZE as u64));
                    proof {
                        lemma_div_by_multiple(self.pagenumber as int, PAGE_SIZE as int);
                    }
                    match self.file.read_page(offset) {
                        Ok(p) => {
                            self.page = p;
                        },
                        Err(e) => {
                            return Err(e);
                        },
                    }
                }
                let ghost pn = self.spec_pagenumber() as int;
                match &self.page {
                    Some(page) => {
                        let a: usize = PAGE_PAYLOAD_SIZE - self.pos;
                        let b: usize = len - read;
                        let have: usize = if a < b {
                            a
                        } else {
                            b
                        };
                        let pos0: usize = self.pos;
                        let mut j: usize = 0;
                        while j < have
                            invariant
                                j <= have,
                                0 < have,
                                buf@.len() == len,
                                len == old(buf)@.len(),
                                read + have <= len,
                                pos0 + have <= PAGE_PAYLOAD_SIZE,
                                page.wf(),
                                page_exists(contents, pn),
                                page@ == page_at(contents, pn),
                                stream == payload_stream(contents),
                                stream.len() == num_pages(contents) * PAGE_PAYLOAD_SIZE,
                                start + read == pn * PAGE_PAYLOAD_SIZE + pos0,
                                forall|i: int| 0 <= i < read + j ==> buf@[i] == stream[start + i],
                                forall|i: int| read + j <= i < len ==> buf@[i] == old(buf)@[i],
                            decreases have - j,
                        {
                            let byte: u8 = page.byte(pos0 + j);
                            proof {
                                lemma_payload_stream_index(contents, pn, pos0 + j);
                            }
                            buf.set(read + j, byte);
                            j = j + 1;
                        }
                        self.pos = pos0 + have;
                        read = read + have;
                        proof {
                            lemma_page_exists_iff(contents, pn);
                            lemma_mul_inequality(
                                pn + 1,
                                num_pages(contents),
                                PAGE_PAYLOAD_SIZE as int,
                            );
                        }
                    },
                    None => {
                        proof {
                            lemma_page_exists_iff(contents, pn);
                            if num_pages(contents) <= pn {
                                lemma_mul_inequality(
                                    num_pages(contents),
                                    pn,
                                    PAGE_PAYLOAD_SIZE as int,
                                );
                            }
                        }
                        return Ok(read);
                    },
                }
            }
        }
    }
}

} // verus!
