//! An in-memory backing store: the simplest store satisfying the paged-file
//! contracts, useful on its own and as the reference implementation against
//! which the contracts are proved satisfiable.

use vstd::prelude::*;
use vstd::arithmetic::mul::lemma_mul_inequality;

use crate::error::StoreError;
use crate::offset::{Offset, OFFSET_LIMIT};
use crate::page::{Page, PAGE_SIZE, spec_write};
use crate::pagedfile::{
    FileOps, PagedFile, RandomWritePagedFile, page_at, page_exists, spec_truncate,
};

verus! {

/// A store kept entirely in memory. Flushing and syncing are no-ops; there
/// is no background writer to shut down.
pub struct MemFile {
    data: Vec<u8>,
}

impl MemFile {
    /// Create an empty store.
    pub fn new() -> (r: MemFile)
        ensures
            r.inv(),
            r.contents() == Seq::<u8>::empty(),
    {
        let r = MemFile { data: Vec::new() };
        proof {
            assert(r.contents() =~= Seq::<u8>::empty());
        }
        r
    }
}

impl FileOps for MemFile {
    /// The whole store stays within the 48-bit address space.
    closed spec fn inv(&self) -> bool {
        self.data@.len() <= OFFSET_LIMIT
    }

    closed spec fn contents(&self) -> Seq<u8> {
        self.data@
    }

    proof fn contents_bounded(&self) {
    }

    /// Nothing is buffered; never fails.
    fn flush(&mut self) -> (r: Result<(), StoreError>)
        ensures
            r is Ok,
    {
        Ok(())
    }

    /// Never fails.
    fn len(&self) -> (r: Result<u64, StoreError>)
        ensures
            r is Ok,
    {
        Ok(self.data.len() as u64)
    }

    /// Fails only on a new length beyond the 48-bit address space or beyond
    /// what this machine can hold, leaving the store unchanged; otherwise
    /// shrinks, or grows with zero bytes.
    fn truncate(&mut self, new_len: u64) -> (r: Result<(), StoreError>)
        ensures
            r is Ok <==> (new_len <= OFFSET_LIMIT && new_len <= usize::MAX),
            r is Err ==> final(self).contents() == old(self).contents(),
    {
        if new_len > OFFSET_LIMIT {
            return Err(StoreError::Io);
        }
        if new_len > usize::MAX as u64 {
            return Err(StoreError::Io);
        }
        let target: usize = new_len as usize;
        if target <= self.data.len() {
            self.data.truncate(target);
            proof {
                assert(self.contents() =~= spec_truncate(old(self).contents(), new_len as int));
            }
        } else {
            while self.data.len() < target
                invariant
                    old(self).data@.len() < target <= OFFSET_LIMIT,
                    old(self).data@.len() <= self.data@.len() <= target,
                    self.data@.subrange(0, old(self).data@.len() as int) == old(self).data@,
                    forall|i: int|
                        old(self).data@.len() <= i < self.data@.len() ==> self.data@[i] == 0u8,
                decreases target - self.data@.len(),
            {
                self.data.push(0u8);
                proof {
                    assert(self.data@.subrange(0, old(self).data@.len() as int) =~= old(
                        self,
                    ).data@);
                }
            }
            proof {
                assert(self.contents() =~= spec_truncate(old(self).contents(), new_len as int));
            }
        }
        Ok(())
    }

    /// Memory is as durable as it gets; never fails.
    fn sync(&self) -> (r: Result<(), StoreError>)
        ensures
            r is Ok,
    {
        Ok(())
    }

    /// There is no background writer.
    fn shutdown(&mut self) {
    }
}

impl PagedFile for MemFile {
    /// Never fails: a missing page is `None`, never an error.
    fn read_page(&self, offset: Offset) -> (r: Result<Option<Page>, StoreError>)
        ensures
            r is Ok,
    {
        let pn: u64 = offset.page_number();
        proof {
            lemma_mul_inequality(pn as int + 1, OFFSET_LIMIT as int, PAGE_SIZE as int);
        }
        let base: u64 = pn * (PAGE_SIZE as u64);
        if base + (PAGE_SIZE as u64) <= self.data.len() as u64 {
            let base_us: usize = base as usize;
            let mut buf: Vec<u8> = Vec::new();
            let mut i: usize = 0;
            while i < PAGE_SIZE
                invariant
                    i <= PAGE_SIZE,
                    buf@.len() == i,
                    base_us == pn as int * PAGE_SIZE as int,
                    base_us + PAGE_SIZE <= self.data@.len(),
                    forall|j: int| 0 <= j < i ==> buf@[j] == self.data@[base_us + j],
                decreases PAGE_SIZE - i,
            {
                buf.push(self.data[base_us + i]);
                i = i + 1;
            }
            proof {
                assert(buf@ =~= page_at(self.contents(), pn as int));
            }
            Ok(Some(Page::from_buf(buf)))
        } else {
            Ok(None)
        }
    }

    /// Fails only when another page would not fit in the 48-bit address
    /// space, leaving the store unchanged.
    fn append_page(&mut self, page: Page) -> (r: Result<(), StoreError>)
        ensures
            r is Ok <==> old(self).contents().len() + PAGE_SIZE <= OFFSET_LIMIT,
            r is Err ==> final(self).contents() == old(self).contents(),
    {
        if self.data.len() as u64 > OFFSET_LIMIT - (PAGE_SIZE as u64) {
            return Err(StoreError::Io);
        }
        let ghost pg = page@;
        let buf: Vec<u8> = page.into_buf();
        let mut i: usize = 0;
        while i < PAGE_SIZE
            invariant
                i <= PAGE_SIZE,
                buf@ == pg,
                pg.len() == PAGE_SIZE,
                old(self).data@.len() + PAGE_SIZE <= OFFSET_LIMIT,
                self.data@.len() == old(self).data@.len() + i,
                self.data@ == old(self).data@ + pg.subrange(0, i as int),
            decreases PAGE_SIZE - i,
        {
            self.data.push(buf[i]);
            proof {
                assert(self.data@ =~= old(self).data@ + pg.subrange(0, i + 1));
            }
            i = i + 1;
        }
        proof {
            assert(self.contents() =~= old(self).contents() + pg);
        }
        Ok(())
    }
}

impl RandomWritePagedFile for MemFile {
    /// Never fails; the target page is owed by the caller to lie within the
    /// store.
    fn write_page(&mut self, page: Page) -> (r: Result<u64, StoreError>)
        ensures
            r is Ok,
    {
        let offset: Offset = page.offset();
        let pn: u64 = offset.page_number();
        let dlen: usize = self.data.len();
        proof {
            assert(page_exists(old(self).contents(), pn as int));
            assert((pn as int + 1) * (PAGE_SIZE as int) == pn as int * (PAGE_SIZE as int)
                + PAGE_SIZE);
        }
        let base: u64 = pn * (PAGE_SIZE as u64);
        proof {
            assert(base + PAGE_SIZE <= dlen);
        }
        let base_us: usize = base as usize;
        let ghost pg = page@;
        let buf: Vec<u8> = page.into_buf();
        let mut i: usize = 0;
        while i < PAGE_SIZE
            invariant
                i <= PAGE_SIZE,
                buf@ == pg,
                pg.len() == PAGE_SIZE,
                base_us == pn as int * PAGE_SIZE as int,
                base_us + PAGE_SIZE <= self.data@.len(),
                self.data@.len() == old(self).data@.len(),
                forall|j: int| 0 <= j < i ==> self.data@[base_us + j] == pg[j],
                forall|j: int|
                    0 <= j < self.data@.len() && !(base_us <= j < base_us + i) ==> self.data@[j]
                        == old(self).data@[j],
            decreases PAGE_SIZE - i,
        {
            self.data.set(base_us + i, buf[i]);
            i = i + 1;
        }
        proof {
            assert(self.contents() =~= spec_write(
                old(self).contents(),
                pn as int * PAGE_SIZE as int,
                pg,
            ));
        }
        Ok(base)
    }
}

} // verus!
