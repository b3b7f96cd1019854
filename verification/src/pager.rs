//! The page store: a sparse cache of pages over a backing byte store.
//!
//! The backing store is held as a flat byte image, the way it lies in the
//! file the caller read it from; the caller writes the image back out when
//! the store is closed.  Pages materialize on demand — from the image when
//! the page lay within the store's extent at open time, zero-filled
//! otherwise — and stay cached until the store is torn down, when every
//! materialized page's written prefix is flushed back into the image.

use vstd::prelude::*;

use crate::page::Page;
use crate::{PAGE_SIZE, TABLE_MAX_PAGES};

verus! {

/// `n` zero bytes.
pub open spec fn zero_bytes(n: int) -> Seq<u8> {
    Seq::new(n as nat, |i: int| 0u8)
}

/// The buffer a page materializes with: the page's slice of the backing
/// image, zero-filled past the image's end, when the page began inside the
/// extent observed at open time; all zeroes otherwise.
pub open spec fn spec_fresh_page(store: Seq<u8>, file_size: int, page_id: int) -> Seq<u8> {
    let start = page_id * (PAGE_SIZE as int);
    if start < file_size {
        Seq::new(
            PAGE_SIZE as nat,
            |i: int|
                if start + i < store.len() {
                    store[start + i]
                } else {
                    0u8
                },
        )
    } else {
        zero_bytes(PAGE_SIZE as int)
    }
}

/// The backing image after one page's written prefix `[0, end_offset)` is
/// flushed to its position, the image zero-extended first if the page lies
/// past its end.
pub open spec fn spec_flush_one(store: Seq<u8>, pg: Page, page_id: int) -> Seq<u8> {
    let start = page_id * (PAGE_SIZE as int);
    let end = start + pg.end_offset;
    let len = if store.len() >= end {
        store.len() as int
    } else {
        end
    };
    Seq::new(
        len as nat,
        |i: int|
            if start <= i < end {
                pg.bytes@[i - start]
            } else if i < store.len() {
                store[i]
            } else {
                0u8
            },
    )
}

/// The backing image after pages `0 .. n` are flushed in ascending order;
/// never-materialized entries leave the image untouched.
pub open spec fn spec_flush_upto(store: Seq<u8>, pages: Seq<Option<Page>>, n: int) -> Seq<u8>
    decreases n,
{
    if n <= 0 {
        store
    } else {
        let prev = spec_flush_upto(store, pages, n - 1);
        match pages[n - 1] {
            Some(pg) => spec_flush_one(prev, pg, n - 1),
            None => prev,
        }
    }
}

/// The page store.
pub struct Pager {
    /// The backing byte store's image.
    pub store: Vec<u8>,
    /// The store's byte length observed at open time; loads consult it,
    /// flushes may grow the image past it.
    pub file_size: usize,
    /// One optional slot per page number; `None` until first access.
    pub pages: Vec<Option<Page>>,
}

impl Pager {
    /// The pager's invariant: one slot per possible page, every
    /// materialized page well formed, and the image at least as long as
    /// the extent observed at open time.
    pub open spec fn wf(&self) -> bool {
        &&& self.pages@.len() == TABLE_MAX_PAGES
        &&& forall|p: int|
            0 <= p < TABLE_MAX_PAGES ==> (#[trigger] self.pages@[p] matches Some(pg)
                ==> pg.wf())
        &&& self.file_size <= self.store@.len()
    }

    /// The bytes a reader of `page_id` sees: the cached buffer once the
    /// page is materialized, else what it would materialize with.
    pub open spec fn spec_page_view(&self, page_id: int) -> Seq<u8> {
        match self.pages@[page_id] {
            Some(pg) => pg.bytes@,
            None => spec_fresh_page(self.store@, self.file_size as int, page_id),
        }
    }

    /// Opens a pager over a backing image; no page is materialized yet.
    pub fn new(store: Vec<u8>) -> (p: Pager)
        ensures
            p.wf(),
            p.store@ == store@,
            p.file_size == store@.len(),
            forall|q: int| 0 <= q < TABLE_MAX_PAGES ==> #[trigger] p.pages@[q] is None,
    {
        let file_size = store.len();
        let mut pages: Vec<Option<Page>> = Vec::new();
        let mut i: usize = 0;
        while i < TABLE_MAX_PAGES
            invariant
                i <= TABLE_MAX_PAGES,
                pages@.len() == i,
                forall|q: int| 0 <= q < i ==> #[trigger] pages@[q] is None,
            decreases TABLE_MAX_PAGES - i,
        {
            pages.push(None);
            i = i + 1;
        }
        Pager { store, file_size, pages }
    }

    /// How many pages the open-time extent covers (counting a final
    /// partial page) and how many bytes that partial page holds.
    pub fn get_nb_pages(&self) -> (r: (usize, usize))
        ensures
            r.1 == self.file_size as int % (PAGE_SIZE as int),
            r.0 == self.file_size as int / (PAGE_SIZE as int) + if r.1 != 0 {
                1int
            } else {
                0int
            },
    {
        let mut num_pages = self.file_size / PAGE_SIZE;
        let rest = self.file_size % PAGE_SIZE;
        if rest != 0 {
            num_pages = num_pages + 1;
        }
        (num_pages, rest)
    }

    /// Materializes `page_id` if it is not cached yet.  Repeated loads
    /// observe prior writes, and what any page would read is unchanged.
    pub fn load_page(&mut self, page_id: usize)
        requires
            old(self).wf(),
            page_id < TABLE_MAX_PAGES,
        ensures
            final(self).wf(),
            final(self).store@ == old(self).store@,
            final(self).file_size == old(self).file_size,
            final(self).pages@[page_id as int] matches Some(pg) && pg.bytes@
                == old(self).spec_page_view(page_id as int),
            old(self).pages@[page_id as int] is Some ==> *final(self) == *old(self),
            old(self).pages@[page_id as int] is None ==> final(self).pages@[page_id as int]
                ->0.end_offset == 0,
            old(self).pages@[page_id as int] is None ==> final(self).pages@ == old(
                self,
            ).pages@.update(
                page_id as int,
                Some(Page { bytes: final(self).pages@[page_id as int]->0.bytes, end_offset: 0 }),
            ),
            forall|q: int|
                0 <= q < TABLE_MAX_PAGES ==> #[trigger] final(self).spec_page_view(q) == old(
                    self,
                ).spec_page_view(q),
            forall|q: int|
                0 <= q < TABLE_MAX_PAGES && q != page_id ==> #[trigger] final(self).pages@[q]
                    == old(self).pages@[q],
    {
        if self.pages[page_id].is_some() {
            return ;
        }
        let start = page_id * PAGE_SIZE;
        let within = start < self.file_size;
        let mut data: Vec<u8> = Vec::new();
        let mut i: usize = 0;
        while i < PAGE_SIZE
            invariant
                i <= PAGE_SIZE,
                data@.len() == i,
                start == page_id as int * (PAGE_SIZE as int),
                within == (start < self.file_size),
                self.file_size <= self.store@.len(),
                forall|j: int|
                    0 <= j < i ==> #[trigger] data@[j] == spec_fresh_page(
                        self.store@,
                        self.file_size as int,
                        page_id as int,
                    )[j],
            decreases PAGE_SIZE - i,
        {
            let b: u8 = if within && start + i < self.store.len() {
                self.store[start + i]
            } else {
                0
            };
            data.push(b);
            i = i + 1;
        }
        let pg = Page { bytes: data, end_offset: 0 };
        proof {
            assert(pg.bytes@ =~= spec_fresh_page(
                self.store@,
                self.file_size as int,
                page_id as int,
            ));
        }
        self.pages[page_id] = Some(pg);
        proof {
            assert forall|q: int| 0 <= q < TABLE_MAX_PAGES implies #[trigger] self.spec_page_view(
                q,
            ) == old(self).spec_page_view(q) by {
                if q != page_id {
                    assert(self.pages@[q] == old(self).pages@[q]);
                }
            }
        }
    }

    /// Writes `data` into the materialized page `page_id` at `offset`,
    /// raising that page's high-water mark; rejects exactly the writes
    /// that would run past the page end, changing nothing.
    pub fn write_page(&mut self, page_id: usize, offset: usize, data: &[u8]) -> (r: Result<
        (),
        &'static str,
    >)
        requires
            old(self).wf(),
            page_id < TABLE_MAX_PAGES,
            old(self).pages@[page_id as int] is Some,
        ensures
            final(self).wf(),
            final(self).store@ == old(self).store@,
            final(self).file_size == old(self).file_size,
            r is Ok <==> offset + data@.len() <= PAGE_SIZE,
            r matches Err(m) ==> {
                &&& m@ == "not enough space to write"@
                &&& final(self).pages@ == old(self).pages@
            },
            r is Ok ==> {
                let opg = old(self).pages@[page_id as int]->0;
                &&& final(self).pages@ == old(self).pages@.update(
                    page_id as int,
                    Some(final(self).pages@[page_id as int]->0),
                )
                &&& final(self).pages@[page_id as int] matches Some(pg) && pg.bytes@
                    == opg.bytes@.subrange(0, offset as int) + data@ + opg.bytes@.subrange(
                    offset + data@.len(),
                    PAGE_SIZE as int,
                ) && pg.end_offset == (if offset + data@.len() > opg.end_offset {
                    offset + data@.len()
                } else {
                    opg.end_offset as int
                })
            },
    {
        let r = match &mut self.pages[page_id] {
            Some(p) => p.write(offset, data),
            None => Err("not enough space to write"),
        };
        proof {
            if r is Err {
                assert(self.pages@ =~= old(self).pages@);
            }
        }
        r
    }

    /// Writes the materialized page's `[0, end_offset)` bytes back into
    /// the image at the page's position, growing the image if needed; a
    /// never-materialized page is a no-op.
    pub fn flush(&mut self, page_id: usize)
        requires
            old(self).wf(),
            page_id < TABLE_MAX_PAGES,
        ensures
            final(self).wf(),
            final(self).pages@ == old(self).pages@,
            final(self).file_size == old(self).file_size,
            final(self).store@ == match old(self).pages@[page_id as int] {
                Some(pg) => spec_flush_one(old(self).store@, pg, page_id as int),
                None => old(self).store@,
            },
    {
        let start = PAGE_SIZE * page_id;
        let data: Option<Vec<u8>> = match &self.pages[page_id] {
            Some(p) => Some(p.read(0, p.end_offset)),
            None => None,
        };
        match data {
            Some(bytes) => {
                let ghost pg = self.pages@[page_id as int]->0;
                let ghost orig = self.store@;
                let end_off = bytes.len();
                proof {
                    assert(bytes@ =~= pg.bytes@.subrange(0, pg.end_offset as int));
                    assert(end_off == pg.end_offset);
                    assert(pg.wf());
                }
                while self.store.len() < start + end_off
                    invariant
                        self.wf(),
                        self.pages@ == old(self).pages@,
                        self.file_size == old(self).file_size,
                        start == PAGE_SIZE * page_id,
                        page_id < TABLE_MAX_PAGES,
                        end_off <= PAGE_SIZE,
                        orig.len() <= self.store@.len() <= if orig.len() >= start + end_off {
                            orig.len() as int
                        } else {
                            start + end_off
                        },
                        self.store@.subrange(0, orig.len() as int) == orig,
                        forall|j: int|
                            orig.len() <= j < self.store@.len() ==> #[trigger] self.store@[j]
                                == 0u8,
                    decreases start + end_off - self.store@.len(),
                {
                    self.store.push(0);
                    proof {
                        assert(self.store@.subrange(0, orig.len() as int) =~= orig);
                    }
                }
                let ghost grown = self.store@;
                let mut i: usize = 0;
                while i < end_off
                    invariant
                        self.wf(),
                        self.pages@ == old(self).pages@,
                        self.file_size == old(self).file_size,
                        start == PAGE_SIZE * page_id,
                        page_id < TABLE_MAX_PAGES,
                        i <= end_off,
                        end_off <= PAGE_SIZE,
                        end_off == bytes@.len(),
                        start + end_off <= grown.len() == self.store@.len(),
                        forall|j: int|
                            start <= j < start + i ==> #[trigger] self.store@[j] == bytes@[j
                                - start],
                        forall|j: int|
                            0 <= j < self.store@.len() && !(start <= j < start + i)
                                ==> #[trigger] self.store@[j] == grown[j],
                    decreases end_off - i,
                {
                    self.store[start + i] = bytes[i];
                    i = i + 1;
                }
                proof {
                    assert(self.store@ =~= spec_flush_one(orig, pg, page_id as int));
                }
            },
            None => {},
        }
    }

    /// Flushes every page in ascending page-number order; this is the one
    /// persistence point of the store's lifetime.
    pub fn flush_all(&mut self)
        requires
            old(self).wf(),
        ensures
            final(self).wf(),
            final(self).pages@ == old(self).pages@,
            final(self).file_size == old(self).file_size,
            final(self).store@ == spec_flush_upto(
                old(self).store@,
                old(self).pages@,
                TABLE_MAX_PAGES as int,
            ),
    {
        let mut page_id: usize = 0;
        while page_id < TABLE_MAX_PAGES
            invariant
                self.wf(),
                page_id <= TABLE_MAX_PAGES,
                self.pages@ == old(self).pages@,
                self.file_size == old(self).file_size,
                self.store@ == spec_flush_upto(old(self).store@, old(self).pages@, page_id as int),
            decreases TABLE_MAX_PAGES - page_id,
        {
            self.flush(page_id);
            page_id = page_id + 1;
        }
    }

    /// Tears the pager down: flushes every page and hands the final
    /// backing image back for the caller to persist.
    pub fn close(self) -> (r: Vec<u8>)
        requires
            self.wf(),
        ensures
            r@ == spec_flush_upto(self.store@, self.pages@, TABLE_MAX_PAGES as int),
    {
        let mut pager = self;
        pager.flush_all();
        pager.store
    }
}

} // verus!
