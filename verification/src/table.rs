//! The table: maps a record's numeric key to a page and an in-page offset,
//! inserts encoded records, enumerates them by logical index, and enforces
//! a hard record capacity.

use vstd::arithmetic::div_mod::{
    lemma_basic_div, lemma_div_is_ordered, lemma_fundamental_div_mod,
    lemma_fundamental_div_mod_converse, lemma_small_mod,
};
use vstd::prelude::*;

use crate::codec::{
    decode_err_msg, decode_row, encode_row, spec_decode_ok, spec_decoded_email, spec_decoded_id,
    spec_decoded_username, spec_row_bytes,
};
use crate::pager::{spec_flush_one, spec_flush_upto, Pager};
use crate::row::Row;
use crate::{PAGE_SIZE, ROW_SIZE, TABLE_MAX_PAGES};

verus! {

/// How many whole records fit in one page.
pub open spec fn spec_rows_per_page() -> int {
    PAGE_SIZE as int / ROW_SIZE as int
}

/// The hard record capacity: full pages only, no spill past the last page.
pub open spec fn spec_capacity() -> int {
    spec_rows_per_page() * (TABLE_MAX_PAGES as int)
}

/// The page that owns slot `row_id`.
pub open spec fn spec_page_of(row_id: int) -> int {
    row_id / spec_rows_per_page()
}

/// The byte offset of slot `row_id` inside its page.
pub open spec fn spec_offset_of(row_id: int) -> int {
    (row_id % spec_rows_per_page()) * (ROW_SIZE as int)
}

/// The record count estimated from the backing store's byte length at open
/// time, the way the table computes it: pages before the last one are
/// assumed full, and the remainder bytes of a partial last page are divided
/// by the record length.  An approximation, not a stored count.
pub open spec fn spec_estimated_rows(file_size: int) -> int {
    let rest = file_size % (PAGE_SIZE as int);
    let nb_pages = file_size / (PAGE_SIZE as int) + if rest != 0 {
        1int
    } else {
        0int
    };
    let full_pages = if nb_pages >= 1 {
        nb_pages - 1
    } else {
        0int
    };
    full_pages * spec_rows_per_page() + rest / (ROW_SIZE as int)
}

/// The table.
pub struct Table {
    /// The page store the table owns exclusively.
    pub pager: Pager,
    /// Count of records, the enumeration bound and capacity gauge.
    pub nb_rows: usize,
    /// Length of one encoded record, fixed at construction.
    pub row_size: usize,
}

impl Table {
    /// The table's invariant: a well-formed pager, the fixed record size,
    /// the count within capacity, and every materialized page's high-water
    /// mark lying on a record boundary within the page's record area.
    pub open spec fn wf(&self) -> bool {
        &&& self.pager.wf()
        &&& self.row_size == ROW_SIZE
        &&& self.nb_rows <= spec_capacity()
        &&& forall|p: int|
            0 <= p < TABLE_MAX_PAGES ==> (#[trigger] self.pager.pages@[p] matches Some(pg) ==> (
            pg.end_offset as int) % (ROW_SIZE as int) == 0 && pg.end_offset
                <= spec_rows_per_page() * (ROW_SIZE as int))
    }

    /// The bytes a read of slot `row_id` sees.
    pub open spec fn slot_bytes(&self, row_id: int) -> Seq<u8> {
        self.pager.spec_page_view(spec_page_of(row_id)).subrange(
            spec_offset_of(row_id),
            spec_offset_of(row_id) + (ROW_SIZE as int),
        )
    }

    /// The high-water mark of page `q`, zero while unmaterialized.
    pub open spec fn spec_page_end(&self, q: int) -> int {
        match self.pager.pages@[q] {
            Some(pg) => pg.end_offset as int,
            None => 0,
        }
    }

    /// Terminal state for insertion: the count has reached capacity.
    pub open spec fn spec_full(&self) -> bool {
        self.nb_rows == spec_capacity()
    }

    /// True when every slot the enumeration would visit decodes.
    pub open spec fn rows_decodable(&self) -> bool {
        forall|i: int| 0 <= i < self.nb_rows ==> spec_decode_ok(#[trigger] self.slot_bytes(i))
    }

    /// Builds a table over a freshly opened pager, measuring the record
    /// length by encoding a minimal record and estimating the record count
    /// from the store's byte length.
    pub fn new(pager: Pager) -> (t: Table)
        requires
            pager.wf(),
            pager.file_size <= PAGE_SIZE * TABLE_MAX_PAGES,
            forall|p: int| 0 <= p < TABLE_MAX_PAGES ==> #[trigger] pager.pages@[p] is None,
        ensures
            t.wf(),
            t.pager == pager,
            t.row_size == ROW_SIZE,
            t.nb_rows == spec_estimated_rows(pager.file_size as int),
    {
        let probe = Row::new(0, "", "");
        let encoded = encode_row(&probe);
        let row_size = encoded.len();
        let rows_per_page = PAGE_SIZE / row_size;
        let (nb_pages, rest) = pager.get_nb_pages();
        proof {
            let fs = pager.file_size as int;
            let ps = PAGE_SIZE as int;
            lemma_div_is_ordered(fs, ps * (TABLE_MAX_PAGES as int), ps);
            assert((ps * (TABLE_MAX_PAGES as int)) / ps == TABLE_MAX_PAGES as int) by {
                lemma_fundamental_div_mod_converse(
                    ps * (TABLE_MAX_PAGES as int),
                    ps,
                    TABLE_MAX_PAGES as int,
                    0,
                );
            }
            assert(fs / ps <= TABLE_MAX_PAGES as int);
            lemma_fundamental_div_mod(fs, ps);
            if fs % ps != 0 {
                assert(fs / ps < TABLE_MAX_PAGES as int);
            }
        }
        let full_pages = if nb_pages >= 1 {
            nb_pages - 1
        } else {
            0
        };
        proof {
            assert(full_pages < TABLE_MAX_PAGES);
        }
        let rows = full_pages * rows_per_page;
        let nb_rows = rows + rest / row_size;
        proof {
            assert(rest < PAGE_SIZE);
            lemma_div_is_ordered(rest as int, PAGE_SIZE as int - 1, ROW_SIZE as int);
            assert((PAGE_SIZE as int - 1) / (ROW_SIZE as int) == spec_rows_per_page()) by {
                lemma_fundamental_div_mod_converse(
                    PAGE_SIZE as int - 1,
                    ROW_SIZE as int,
                    spec_rows_per_page(),
                    PAGE_SIZE as int - 1 - spec_rows_per_page() * (ROW_SIZE as int),
                );
            }
            if rest == 0 {
                lemma_basic_div(0, ROW_SIZE as int);
            }
            assert(nb_rows <= spec_capacity());
        }
        Table { nb_rows, pager, row_size }
    }

    /// How many records one page holds.
    pub fn get_row_per_page(&self) -> (r: usize)
        requires
            self.wf(),
        ensures
            r == spec_rows_per_page(),
    {
        PAGE_SIZE / self.row_size
    }

    /// The page that owns slot `row_id`.
    pub fn get_page_id(&self, row_id: usize) -> (r: usize)
        requires
            self.wf(),
        ensures
            r == spec_page_of(row_id as int),
    {
        row_id / self.get_row_per_page()
    }

    /// The byte offset of slot `row_id` inside its page.
    pub fn get_row_offset(&self, row_id: usize) -> (r: usize)
        requires
            self.wf(),
        ensures
            r == spec_offset_of(row_id as int),
    {
        (row_id % self.get_row_per_page()) * self.row_size
    }

    /// Whether the table has reached its hard capacity.
    pub fn is_full(&self) -> (r: bool)
        requires
            self.wf(),
        ensures
            r == self.spec_full(),
    {
        let max = self.get_row_per_page() * TABLE_MAX_PAGES;
        self.nb_rows == max
    }

    /// Inserts one record at the slot its own id selects.  Fails exactly
    /// when the table is already full, leaving everything unchanged; a
    /// successful insert writes the record's encoding into its slot,
    /// leaves every other slot and the backing image as they were, and
    /// raises the count by one.
    pub fn insert_row(&mut self, row: &Row) -> (r: Result<(), &'static str>)
        requires
            old(self).wf(),
            !old(self).spec_full() ==> (row.id as int) < spec_capacity(),
        ensures
            final(self).wf(),
            final(self).row_size == old(self).row_size,
            final(self).pager.store@ == old(self).pager.store@,
            final(self).pager.file_size == old(self).pager.file_size,
            r is Ok <==> !old(self).spec_full(),
            r matches Err(m) ==> m@ == "Table is full"@ && *final(self) == *old(self),
            r is Ok ==> {
                &&& final(self).nb_rows == old(self).nb_rows + 1
                &&& final(self).slot_bytes(row.id as int) == spec_row_bytes(*row)
                &&& forall|i: int|
                    0 <= i < spec_capacity() && i != row.id as int
                        ==> #[trigger] final(self).slot_bytes(i) == old(self).slot_bytes(i)
                &&& forall|q: int|
                    0 <= q < TABLE_MAX_PAGES && q != spec_page_of(row.id as int)
                        ==> #[trigger] final(self).pager.pages@[q] == old(self).pager.pages@[q]
                &&& final(self).spec_page_end(spec_page_of(row.id as int)) == ({
                    let want = spec_offset_of(row.id as int) + (ROW_SIZE as int);
                    let oe = old(self).spec_page_end(spec_page_of(row.id as int));
                    if want > oe {
                        want
                    } else {
                        oe
                    }
                })
            },
    {
        if self.is_full() {
            return Err("Table is full");
        }
        let row_bytes = encode_row(row);
        let rid = row.id as usize;
        let page_id = self.get_page_id(rid);
        let offset = self.get_row_offset(rid);
        proof {
            lemma_slot_arith(rid as int);
        }
        self.pager.load_page(page_id);
        let ghost mid = *self;
        let res = self.pager.write_page(page_id, offset, row_bytes.as_slice());
        match res {
            Ok(_) => {
                proof {
                    let p = spec_page_of(rid as int);
                    let off = spec_offset_of(rid as int);
                    let pg = self.pager.pages@[p]->0;
                    let oldview = old(self).pager.spec_page_view(p);
                    assert(mid.pager.pages@[p]->0.bytes@ == oldview);
                    assert(pg.bytes@.len() == PAGE_SIZE);
                    assert(self.slot_bytes(rid as int) =~= row_bytes@);
                    assert forall|i: int|
                        0 <= i < spec_capacity() && i != rid as int implies #[trigger] self
                        .slot_bytes(i) == old(self).slot_bytes(i) by {
                        lemma_slot_arith(i);
                        if spec_page_of(i) == p {
                            lemma_distinct_slots(i, rid as int);
                            assert(self.slot_bytes(i) =~= old(self).slot_bytes(i));
                        } else {
                            assert(self.pager.pages@[spec_page_of(i)] == old(
                                self,
                            ).pager.pages@[spec_page_of(i)]);
                            assert(self.pager.spec_page_view(spec_page_of(i)) == old(
                                self,
                            ).pager.spec_page_view(spec_page_of(i)));
                        }
                    }
                    assert((off + ROW_SIZE as int) % (ROW_SIZE as int) == 0) by {
                        lemma_fundamental_div_mod_converse(
                            off + ROW_SIZE as int,
                            ROW_SIZE as int,
                            (rid as int % spec_rows_per_page()) + 1,
                            0,
                        );
                    }
                    assert(self.wf());
                }
                self.nb_rows = self.nb_rows + 1;
                Ok(())
            },
            Err(_) => {
                proof {
                    assert(false);
                }
                Err("failed to copy to page")
            },
        }
    }

    /// Enumerates the records in logical slot order `0 .. nb_rows`,
    /// loading each owning page and decoding each slot.  The slots
    /// themselves are left exactly as they were; the pass fails exactly
    /// when some visited slot does not decode.
    pub fn select_row(&mut self) -> (r: Result<Vec<Row>, &'static str>)
        requires
            old(self).wf(),
        ensures
            final(self).wf(),
            final(self).nb_rows == old(self).nb_rows,
            final(self).row_size == old(self).row_size,
            final(self).pager.store@ == old(self).pager.store@,
            final(self).pager.file_size == old(self).pager.file_size,
            forall|q: int|
                0 <= q < TABLE_MAX_PAGES
                    ==> #[trigger] final(self).pager.spec_page_view(q)
                    == old(self).pager.spec_page_view(q),
            forall|q: int|
                0 <= q < TABLE_MAX_PAGES
                    ==> #[trigger] final(self).spec_page_end(q) == old(self).spec_page_end(q),
            forall|i: int|
                0 <= i < spec_capacity()
                    ==> #[trigger] final(self).slot_bytes(i) == old(self).slot_bytes(i),
            r is Ok <==> old(self).rows_decodable(),
            r matches Err(m) ==> m@ == decode_err_msg(),
            r matches Ok(rows) ==> {
                &&& rows@.len() == old(self).nb_rows
                &&& forall|i: int|
                    0 <= i < rows@.len() ==> {
                        &&& (#[trigger] rows@[i]).id == spec_decoded_id(old(self).slot_bytes(i))
                        &&& rows@[i].username@ == spec_decoded_username(old(self).slot_bytes(i))
                        &&& rows@[i].email@ == spec_decoded_email(old(self).slot_bytes(i))
                    }
            },
    {
        let mut out: Vec<Row> = Vec::new();
        let mut row_id: usize = 0;
        while row_id < self.nb_rows
            invariant
                self.wf(),
                row_id <= self.nb_rows,
                self.nb_rows == old(self).nb_rows,
                self.row_size == old(self).row_size,
                self.pager.store@ == old(self).pager.store@,
                self.pager.file_size == old(self).pager.file_size,
                forall|q: int|
                    0 <= q < TABLE_MAX_PAGES ==> #[trigger] self.pager.spec_page_view(q) == old(
                        self,
                    ).pager.spec_page_view(q),
                forall|q: int|
                    0 <= q < TABLE_MAX_PAGES ==> #[trigger] self.spec_page_end(q) == old(
                        self,
                    ).spec_page_end(q),
                forall|i: int|
                    0 <= i < spec_capacity() ==> #[trigger] self.slot_bytes(i) == old(
                        self,
                    ).slot_bytes(i),
                out@.len() == row_id,
                forall|i: int|
                    0 <= i < row_id ==> spec_decode_ok(#[trigger] old(self).slot_bytes(i)),
                forall|i: int|
                    0 <= i < row_id ==> {
                        &&& (#[trigger] out@[i]).id == spec_decoded_id(old(self).slot_bytes(i))
                        &&& out@[i].username@ == spec_decoded_username(old(self).slot_bytes(i))
                        &&& out@[i].email@ == spec_decoded_email(old(self).slot_bytes(i))
                    },
            decreases self.nb_rows - row_id,
        {
            proof {
                lemma_slot_arith(row_id as int);
            }
            let page_id = self.get_page_id(row_id);
            let row_offset = self.get_row_offset(row_id);
            let ghost pre = *self;
            self.pager.load_page(page_id);
            proof {
                assert forall|q: int|
                    0 <= q < TABLE_MAX_PAGES implies #[trigger] self.spec_page_end(q)
                    == pre.spec_page_end(q) by {
                    if q != page_id as int {
                        assert(self.pager.pages@[q] == pre.pager.pages@[q]);
                    }
                }
            }
            let slot = {
                let p = self.pager.pages[page_id].as_ref().unwrap();
                p.read(row_offset, self.row_size)
            };
            proof {
                assert(slot@ == self.slot_bytes(row_id as int));
            }
            match decode_row(slot.as_slice()) {
                Ok(row) => {
                    out.push(row);
                },
                Err(e) => {
                    proof {
                        assert(!spec_decode_ok(old(self).slot_bytes(row_id as int)));
                    }
                    return Err(e);
                },
            }
            row_id = row_id + 1;
        }
        Ok(out)
    }

    /// Tears the table down: flushes every materialized page into the
    /// backing image in ascending page order and hands the image back for
    /// the caller to persist.
    pub fn close(self) -> (r: Vec<u8>)
        requires
            self.wf(),
        ensures
            r@ == spec_flush_upto(self.pager.store@, self.pager.pages@, TABLE_MAX_PAGES as int),
    {
        self.pager.close()
    }
}

/// Slot arithmetic: every id below capacity maps to a page below the page
/// cap and to a record-aligned offset whose record fits inside the page.
pub proof fn lemma_slot_arith(i: int)
    requires
        0 <= i < spec_capacity(),
    ensures
        0 <= spec_page_of(i) < TABLE_MAX_PAGES,
        0 <= spec_offset_of(i),
        spec_offset_of(i) + (ROW_SIZE as int) <= spec_rows_per_page() * (ROW_SIZE as int),
        spec_rows_per_page() * (ROW_SIZE as int) <= PAGE_SIZE,
        spec_offset_of(i) % (ROW_SIZE as int) == 0,
        spec_page_of(i) * spec_rows_per_page() + (i % spec_rows_per_page()) == i,
{
    let rpp = spec_rows_per_page();
    lemma_fundamental_div_mod(i, rpp);
    assert(0 <= i % rpp < rpp);
    assert(spec_offset_of(i) % (ROW_SIZE as int) == 0) by {
        lemma_fundamental_div_mod_converse(
            spec_offset_of(i),
            ROW_SIZE as int,
            i % rpp,
            0,
        );
    }
}

/// Two distinct slots of the same page occupy disjoint byte ranges.
pub proof fn lemma_distinct_slots(i: int, j: int)
    requires
        0 <= i < spec_capacity(),
        0 <= j < spec_capacity(),
        i != j,
        spec_page_of(i) == spec_page_of(j),
    ensures
        spec_offset_of(i) + (ROW_SIZE as int) <= spec_offset_of(j) || spec_offset_of(j) + (
        ROW_SIZE as int) <= spec_offset_of(i),
{
    let rpp = spec_rows_per_page();
    lemma_fundamental_div_mod(i, rpp);
    lemma_fundamental_div_mod(j, rpp);
    assert(i % rpp != j % rpp);
}

/// Flushing a run of never-materialized pages leaves the image as it was.
pub proof fn lemma_flush_upto_skip(store: Seq<u8>, pages: Seq<Option<crate::page::Page>>, j: int, k: int)
    requires
        0 <= j <= k,
        forall|q: int| j <= q < k ==> #[trigger] pages[q] is None,
    ensures
        spec_flush_upto(store, pages, k) == spec_flush_upto(store, pages, j),
    decreases k - j,
{
    if k > j {
        lemma_flush_upto_skip(store, pages, j, k - 1);
        assert(pages[k - 1] is None);
    }
}

/// How many of page `p`'s record slots lie below the count `n`.
pub open spec fn spec_page_fill(n: int, p: int) -> int {
    if n >= (p + 1) * spec_rows_per_page() {
        spec_rows_per_page()
    } else if n > p * spec_rows_per_page() {
        n - p * spec_rows_per_page()
    } else {
        0
    }
}

/// The byte a flush of `pages` leaves at offset `j` of the image: within a
/// materialized page's written prefix its buffer byte, elsewhere zero.
pub open spec fn spec_image_byte(pages: Seq<Option<crate::page::Page>>, j: int) -> u8 {
    let p = j / (PAGE_SIZE as int);
    let o = j % (PAGE_SIZE as int);
    match pages[p] {
        Some(pg) => if o < pg.end_offset {
            pg.bytes@[o]
        } else {
            0u8
        },
        None => 0u8,
    }
}

/// The in-memory state that `n` inserts with ids `0 .. n` leave in a table
/// opened over an empty store: every page owning a slot below `n` is
/// materialized with its high-water mark right after its last written
/// record, and no other page is touched.
pub open spec fn spec_freshly_filled(t: Table, n: int) -> bool {
    &&& t.wf()
    &&& t.nb_rows == n
    &&& t.pager.store@.len() == 0
    &&& t.pager.file_size == 0
    &&& forall|p: int|
        0 <= p < TABLE_MAX_PAGES ==> (#[trigger] t.pager.pages@[p] matches Some(pg) ==> (
        spec_page_fill(n, p) > 0 && pg.end_offset == spec_page_fill(n, p) * (ROW_SIZE as int)))
    &&& forall|p: int|
        0 <= p < TABLE_MAX_PAGES && spec_page_fill(n, p) > 0 ==> #[trigger] t.pager.pages@[p]
            is Some
}

/// The image a freshly filled table's first `k` page flushes build: page
/// after page in ascending order, each page's written prefix at its page
/// position with the unwritten page tail zero-filled.
proof fn lemma_flush_image(t: Table, n: int, k: int)
    requires
        spec_freshly_filled(t, n),
        0 < n <= spec_capacity(),
        1 <= k <= TABLE_MAX_PAGES,
        spec_page_fill(n, k - 1) > 0,
    ensures
        spec_flush_upto(t.pager.store@, t.pager.pages@, k).len() == (k - 1) * (PAGE_SIZE as int)
            + spec_page_fill(n, k - 1) * (ROW_SIZE as int),
        forall|j: int|
            0 <= j < spec_flush_upto(t.pager.store@, t.pager.pages@, k).len()
                ==> #[trigger] spec_flush_upto(t.pager.store@, t.pager.pages@, k)[j]
                == spec_image_byte(t.pager.pages@, j),
    decreases k,
{
    let ps = PAGE_SIZE as int;
    let rs = ROW_SIZE as int;
    let rpp = spec_rows_per_page();
    let pages = t.pager.pages@;
    let store = t.pager.store@;
    let fill = spec_page_fill(n, k - 1);
    let e = fill * rs;
    assert(pages[k - 1] is Some);
    let pg = pages[k - 1]->0;
    assert(pg.end_offset == e);
    assert(pg.wf());
    assert(0 < e <= rpp * rs);
    if k == 1 {
        assert(spec_flush_upto(store, pages, 0) == store);
        let img = spec_flush_upto(store, pages, 1);
        assert(img == spec_flush_one(store, pg, 0));
        assert(img.len() == e);
        assert forall|j: int| 0 <= j < img.len() implies #[trigger] img[j] == spec_image_byte(
            pages,
            j,
        ) by {
            lemma_basic_div(j, ps);
            lemma_small_mod(j as nat, ps as nat);
        }
    } else {
        assert(spec_page_fill(n, k - 2) == rpp) by {
            assert(n > (k - 1) * rpp);
        }
        lemma_flush_image(t, n, k - 1);
        let prev = spec_flush_upto(store, pages, k - 1);
        let prevlen = (k - 2) * ps + rpp * rs;
        assert(prev.len() == prevlen);
        let start = (k - 1) * ps;
        assert(prevlen < start);
        let img = spec_flush_upto(store, pages, k);
        assert(img == spec_flush_one(prev, pg, k - 1));
        assert(img.len() == start + e);
        assert forall|j: int| 0 <= j < img.len() implies #[trigger] img[j] == spec_image_byte(
            pages,
            j,
        ) by {
            if j < prevlen {
                assert(img[j] == prev[j]);
                assert(prev[j] == spec_image_byte(pages, j));
            } else if j < start {
                lemma_fundamental_div_mod_converse(j, ps, k - 2, j - (k - 2) * ps);
                assert(img[j] == 0u8);
                assert(j - (k - 2) * ps >= rpp * rs);
            } else {
                lemma_fundamental_div_mod_converse(j, ps, k - 1, j - start);
                assert(img[j] == pg.bytes@[j - start]);
            }
        }
    }
}

/// Persistence round trip.  Take a table that was opened over an empty
/// store and holds `n` records in slots `0 .. n` — the state that `n`
/// inserts with ids `0 .. n` produce, for any `n` up to the capacity.
/// Closing it flushes exactly those records' bytes, and any table freshly
/// opened over the flushed image recovers the same record count and the
/// same bytes in the same slots, so its enumeration decodes the same
/// records in the same order.
pub proof fn lemma_persistence_round_trip(t: Table, t2: Table, rows: Seq<Row>)
    requires
        spec_freshly_filled(t, t.nb_rows as int),
        rows.len() == t.nb_rows,
        forall|i: int|
            0 <= i < t.nb_rows ==> #[trigger] t.slot_bytes(i) == spec_row_bytes(rows[i]),
        t2.row_size == ROW_SIZE,
        t2.pager.pages@.len() == TABLE_MAX_PAGES,
        forall|q: int| 0 <= q < TABLE_MAX_PAGES ==> #[trigger] t2.pager.pages@[q] is None,
        t2.pager.store@ == spec_flush_upto(
            t.pager.store@,
            t.pager.pages@,
            TABLE_MAX_PAGES as int,
        ),
        t2.pager.file_size == t2.pager.store@.len(),
        t2.nb_rows == spec_estimated_rows(t2.pager.file_size as int),
    ensures
        t2.wf(),
        t2.nb_rows == t.nb_rows,
        forall|i: int|
            0 <= i < t.nb_rows ==> #[trigger] t2.slot_bytes(i) == spec_row_bytes(rows[i]),
        t2.rows_decodable(),
{
    let ps = PAGE_SIZE as int;
    let rs = ROW_SIZE as int;
    let rpp = spec_rows_per_page();
    let n = t.nb_rows as int;
    let pages = t.pager.pages@;
    let store = t.pager.store@;
    let store2 = t2.pager.store@;

    if n == 0 {
        assert forall|p: int| 0 <= p < TABLE_MAX_PAGES implies #[trigger] pages[p] is None by {
            assert(spec_page_fill(0, p) == 0);
            if pages[p] is Some {
                assert(spec_page_fill(0, p) > 0);
            }
        }
        lemma_flush_upto_skip(store, pages, 0, TABLE_MAX_PAGES as int);
        assert(store2.len() == 0);
        lemma_basic_div(0, ps);
        lemma_small_mod(0, ps as nat);
        lemma_basic_div(0, rs);
        assert(t2.nb_rows == 0);
        assert(t2.wf());
    } else {
        lemma_fundamental_div_mod(n, rpp);
        let last = if n % rpp > 0 {
            n / rpp
        } else {
            n / rpp - 1
        };
        let fill = spec_page_fill(n, last);
        assert(0 <= last < TABLE_MAX_PAGES);
        assert(0 < fill <= rpp);
        assert(last * rpp + fill == n);
        let e = fill * rs;
        let img_len = last * ps + e;

        // Beyond the last touched page nothing was materialized.
        assert forall|p: int| last < p < TABLE_MAX_PAGES implies #[trigger] pages[p] is None by {
            assert(spec_page_fill(n, p) == 0);
            if pages[p] is Some {
                assert(spec_page_fill(n, p) > 0);
            }
        }
        lemma_flush_image(t, n, last + 1);
        lemma_flush_upto_skip(store, pages, last + 1, TABLE_MAX_PAGES as int);
        assert(store2.len() == img_len);
        assert(forall|j: int|
            0 <= j < img_len ==> #[trigger] store2[j] == spec_image_byte(pages, j));

        // The reopened table's estimate recovers the exact record count:
        // `last` full pages plus the last page's remainder records.
        assert(0 < e <= rpp * rs);
        lemma_fundamental_div_mod_converse(img_len, ps, last, e);
        assert(img_len % ps == e && img_len / ps == last);
        lemma_fundamental_div_mod_converse(e, rs, fill, 0);
        assert(t2.nb_rows == last * rpp + e / rs);
        assert(t2.nb_rows == n);
        assert(t2.wf());

        // Each slot of the reopened table reads the same bytes back.
        assert forall|i: int| 0 <= i < t.nb_rows implies #[trigger] t2.slot_bytes(i)
            == spec_row_bytes(rows[i]) by {
            lemma_slot_arith(i);
            lemma_fundamental_div_mod(i, rpp);
            let p = spec_page_of(i);
            let off = spec_offset_of(i);
            assert(spec_page_fill(n, p) >= i % rpp + 1) by {
                assert(p * rpp + i % rpp == i < n);
            }
            assert(pages[p] is Some);
            let pg = pages[p]->0;
            assert(pg.wf());
            assert(off + rs <= pg.end_offset);
            assert(p <= last) by {
                if p > last {
                    assert(spec_page_fill(n, p) == 0);
                }
            }
            assert(p * ps < img_len) by {
                if p == last {
                    assert(e > 0);
                } else {
                    assert((p + 1) * ps <= last * ps);
                }
            }
            assert(p * ps + off + rs <= img_len) by {
                if p == last {
                    assert(off + rs <= e);
                } else {
                    assert(off + rs <= ps);
                    assert((p + 1) * ps <= last * ps);
                }
            }
            assert(t.slot_bytes(i) == pg.bytes@.subrange(off, off + rs));
            assert forall|j: int| off <= j < off + rs implies #[trigger] pg.bytes@[j]
                == store2[p * ps + j] by {
                lemma_fundamental_div_mod_converse(p * ps + j, ps, p, j);
                assert(store2[p * ps + j] == spec_image_byte(pages, p * ps + j));
                assert(j < pg.end_offset);
            }
            assert(t2.slot_bytes(i) =~= t.slot_bytes(i));
        }

        // Every recovered slot decodes, since every encoded record does.
        assert forall|i: int| 0 <= i < t2.nb_rows implies spec_decode_ok(
            #[trigger] t2.slot_bytes(i),
        ) by {
            crate::codec::lemma_encode_decodable(rows[i]);
        }
    }
}

} // verus!
