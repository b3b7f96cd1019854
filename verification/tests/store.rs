use rsdb::codec::{decode_row, encode_row};
use rsdb::page::Page;
use rsdb::pager::Pager;
use rsdb::row::{pad_string, Row};
use rsdb::table::Table;
use rsdb::{COLUMN_EMAIL_SIZE, COLUMN_USERNAME_SIZE, PAGE_SIZE, ROW_SIZE, TABLE_MAX_PAGES};

#[test]
fn rows() {
    let row = Row::new(1, "foo", "bar");
    assert_eq!(row.id, 1);
    assert_eq!(row.username, pad_string("foo", COLUMN_USERNAME_SIZE));
    assert_eq!(row.email, pad_string("bar", COLUMN_EMAIL_SIZE));
}

#[test]
fn page() {
    let mut page = Page::new([0x0; PAGE_SIZE]);
    assert_eq!(
        page.write(PAGE_SIZE, &[0x1]),
        Err("not enough space to write")
    );

    assert_eq!(page.bytes.len(), PAGE_SIZE);
    assert_eq!(page.end_offset, 0);
    assert_eq!(page.write(100, &[0x1; 10]), Ok(()));
    assert_eq!(page.end_offset, 110);
}

#[test]
fn page_rejected_write_leaves_buffer() {
    let mut page = Page::new([0x0; PAGE_SIZE]);
    assert_eq!(page.write(4090, &[0x7; 7]), Err("not enough space to write"));
    assert!(page.bytes.iter().all(|b| *b == 0));
    assert_eq!(page.end_offset, 0);
}

#[test]
fn pager() {
    let pager = Pager::new(vec![0x0; PAGE_SIZE]);
    assert_eq!(pager.get_nb_pages(), (1, 0));

    let pager = Pager::new(vec![0x0; PAGE_SIZE + 7]);
    assert_eq!(pager.get_nb_pages(), (2, 7));
}

#[test]
fn table() {
    let mut table = Table::new(Pager::new(vec![0x0; PAGE_SIZE]));
    let _ = table.insert_row(&Row::new(1, "foo", "bar"));
    let _ = table.insert_row(&Row::new(2, "foo", "bar"));
    let rows = table.select_row().unwrap();
    assert_eq!(rows.len(), 2);
}

#[test]
fn fill_table() {
    let mut table = Table::new(Pager::new(vec![0x0; PAGE_SIZE]));
    let max = (table.get_row_per_page() * TABLE_MAX_PAGES) as u32;
    for i in 0..max {
        let res = table.insert_row(&Row::new(i, "foo", "bar"));
        assert!(res.is_ok());
    }
    let res = table.insert_row(&Row::new(max, "foo", "bar"));
    assert_eq!(res, Err("Table is full"));
}

#[test]
fn persistance() {
    let flushed;
    {
        let mut table = Table::new(Pager::new(Vec::new()));

        let rows = table.select_row().unwrap();
        assert_eq!(rows.len(), 0);

        let _ = table.insert_row(&Row::new(0, "foo", "bar"));
        let rows = table.select_row().unwrap();
        assert_eq!(rows.len(), 1);
        flushed = table.close();
    }
    {
        let mut table = Table::new(Pager::new(flushed));

        let rows = table.select_row().unwrap();
        assert_eq!(rows.len(), 1);
    }
}

#[test]
fn persistence_keeps_records_in_order() {
    let mut table = Table::new(Pager::new(Vec::new()));
    for i in 0..3u32 {
        assert!(table.insert_row(&Row::new(i, "foo", "bar")).is_ok());
    }
    let flushed = table.close();
    assert_eq!(flushed.len(), 3 * ROW_SIZE);

    let mut reopened = Table::new(Pager::new(flushed));
    let rows = reopened.select_row().unwrap();
    assert_eq!(rows.len(), 3);
    for (i, row) in rows.iter().enumerate() {
        assert_eq!(row.id, i as u32);
        assert_eq!(row.username, "foo");
        assert_eq!(row.email, "bar");
    }
}

#[test]
fn estimate_counts_full_pages() {
    let mut table = Table::new(Pager::new(vec![0x0; 2 * PAGE_SIZE]));
    let per_page = table.get_row_per_page();
    let rows = table.select_row().unwrap();
    assert_eq!(rows.len(), per_page);
}

#[test]
fn persistence_across_page_boundary() {
    let mut table = Table::new(Pager::new(Vec::new()));
    let n = table.get_row_per_page() as u32 + 7;
    for i in 0..n {
        assert!(table.insert_row(&Row::new(i, "user", "user@example.com")).is_ok());
    }
    let flushed = table.close();

    let mut reopened = Table::new(Pager::new(flushed));
    let rows = reopened.select_row().unwrap();
    assert_eq!(rows.len(), n as usize);
    for (i, row) in rows.iter().enumerate() {
        assert_eq!(row.id, i as u32);
        assert_eq!(row.username, "user");
        assert_eq!(row.email, "user@example.com");
    }
}

#[test]
fn persistence_of_exactly_full_pages() {
    let mut table = Table::new(Pager::new(Vec::new()));
    let n = 2 * table.get_row_per_page() as u32;
    for i in 0..n {
        assert!(table.insert_row(&Row::new(i, "a", "b")).is_ok());
    }
    let flushed = table.close();

    let mut reopened = Table::new(Pager::new(flushed));
    let rows = reopened.select_row().unwrap();
    assert_eq!(rows.len(), n as usize);
    for (i, row) in rows.iter().enumerate() {
        assert_eq!(row.id, i as u32);
    }
}

#[test]
fn fill_table_over_empty_store() {
    let mut table = Table::new(Pager::new(Vec::new()));
    let max = (table.get_row_per_page() * TABLE_MAX_PAGES) as u32;
    for i in 0..max {
        let name = format!("user{}", i % 17);
        let mail = format!("user{}@example.com", i % 23);
        assert!(table
            .insert_row(&Row::new(i, name.as_str(), mail.as_str()))
            .is_ok());
    }
    let before = {
        let rows = table.select_row().unwrap();
        rows.len()
    };
    assert_eq!(
        table.insert_row(&Row::new(max, "late", "late@example.com")),
        Err("Table is full")
    );
    let after = table.select_row().unwrap().len();
    assert_eq!(before, after);
    assert_eq!(after, max as usize);
}

#[test]
fn codec_round_trip() {
    let row = Row::new(7, "alice", "alice@example.com");
    let bytes = encode_row(&row);
    assert_eq!(bytes.len(), ROW_SIZE);
    let back = decode_row(&bytes).unwrap();
    assert_eq!(back.id, 7);
    assert_eq!(back.username, "alice");
    assert_eq!(back.email, "alice@example.com");
}

#[test]
fn codec_constant_length() {
    let a = encode_row(&Row::new(0, "", ""));
    let b = encode_row(&Row::new(u32::MAX, "a-rather-long-username-here", "x@y.z"));
    assert_eq!(a.len(), b.len());
    assert_eq!(a.len(), ROW_SIZE);
}

#[test]
fn codec_layout_is_pinned() {
    let bytes = encode_row(&Row::new(0x01020304, "ab", "c"));
    assert_eq!(&bytes[0..4], &[0x04, 0x03, 0x02, 0x01]);
    assert_eq!(&bytes[4..12], &[32, 0, 0, 0, 0, 0, 0, 0]);
    assert_eq!(&bytes[12..14], b"ab");
    assert!(bytes[14..44].iter().all(|b| *b == b' '));
    assert_eq!(&bytes[44..52], &[255, 0, 0, 0, 0, 0, 0, 0]);
    assert_eq!(bytes[52], b'c');
    assert!(bytes[53..307].iter().all(|b| *b == b' '));
}

#[test]
fn decode_rejects_bad_input() {
    assert_eq!(decode_row(&[0u8; 10]), Err("failed to deserialize row"));
    let mut bytes = vec![0u8; ROW_SIZE];
    for b in bytes[4..12].iter_mut() {
        *b = 0xff;
    }
    assert_eq!(decode_row(&bytes), Err("failed to deserialize row"));
}

#[test]
fn decode_zero_block_is_empty_row() {
    let row = decode_row(&vec![0u8; ROW_SIZE]).unwrap();
    assert_eq!(row.id, 0);
    assert_eq!(row.username, "");
    assert_eq!(row.email, "");
}

#[test]
fn pad_string_pads_and_truncates() {
    assert_eq!(pad_string("ab", 4), "ab  ");
    assert_eq!(pad_string("", 3), "   ");
    assert_eq!(pad_string("abcdef", 4), "abcd");
    assert_eq!(pad_string("abcd", 4), "abcd");
}

#[test]
fn insert_one_then_enumerate() {
    // The table addresses storage by the record's own id while enumeration
    // walks logical slots 0..count, so the record inserted at id 1 sits in
    // slot 1 and the single enumerated entry is the untouched slot 0.
    let mut table = Table::new(Pager::new(Vec::new()));
    assert!(table
        .insert_row(&Row::new(1, "alice", "alice@example.com"))
        .is_ok());
    let rows = table.select_row().unwrap();
    assert_eq!(rows.len(), 1);
    assert_eq!(rows[0].id, 0);
    assert_eq!(rows[0].username, "");
    assert_eq!(rows[0].email, "");
}

#[test]
fn enumeration_goes_by_slot_not_by_id() {
    let mut table = Table::new(Pager::new(Vec::new()));
    assert!(table.insert_row(&Row::new(5, "foo", "bar")).is_ok());
    let rows = table.select_row().unwrap();
    assert_eq!(rows.len(), 1);
    assert_eq!(rows[0].id, 0);
    assert_eq!(rows[0].username, "");
    assert_eq!(rows[0].email, "");
}

#[test]
fn slot_zero_insert_reads_back() {
    let mut table = Table::new(Pager::new(Vec::new()));
    assert!(table.insert_row(&Row::new(0, "alice", "alice@example.com")).is_ok());
    let rows = table.select_row().unwrap();
    assert_eq!(rows.len(), 1);
    assert_eq!(rows[0].id, 0);
    assert_eq!(rows[0].username, "alice");
    assert_eq!(rows[0].email, "alice@example.com");
}
