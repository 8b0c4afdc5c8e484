use dbase_parser::fields::FieldValue;
use dbase_parser::header::{Database, Version};
use dbase_parser::memo::{MemoContainer, FoxProMemoContainer, DBaseMemoContainer};
use dbase_parser::dates::{Date, DateTime};
use dbase_parser::numeric::NumericValue;
use dbase_parser::DbfError;

fn descriptor(name: &str, tag: u8, length: u8) -> Vec<u8> {
    let mut d = vec![0u8; 32];
    d[..name.len()].copy_from_slice(name.as_bytes());
    d[11] = tag;
    d[16] = length;
    d
}

fn table(version: u8, record_count: u32, descriptors: &[Vec<u8>], rows: &[Vec<u8>]) -> Vec<u8> {
    let header_size = (32 + 32 * descriptors.len() + 1) as u16;
    let row_len = rows.iter().map(|r| r.len()).max().unwrap_or(1);
    let record_size = row_len as u16;
    let mut t = vec![0u8; 32];
    t[0] = version;
    t[1] = 119; // 2019
    t[2] = 9;
    t[3] = 4;
    t[4..8].copy_from_slice(&record_count.to_le_bytes());
    t[8..10].copy_from_slice(&header_size.to_le_bytes());
    t[10..12].copy_from_slice(&record_size.to_le_bytes());
    for d in descriptors {
        t.extend_from_slice(d);
    }
    t.push(0x0D);
    for r in rows {
        t.extend_from_slice(r);
    }
    t.push(0x1A);
    t
}

#[test]
fn unknown_version_byte_still_parses() {
    let descriptors = vec![descriptor("ID", b'N', 5)];
    let rows = vec![{
        let mut r = vec![0x20];
        r.extend_from_slice(b"   20");
        r
    }];
    let bytes = table(0xAA, 1, &descriptors, &rows);
    let db = Database::parse("t.dbf", bytes, None).unwrap();
    assert_eq!(db.header.version, Version::Unknown);
    assert_eq!(db.header.record_count, 1);
    assert_eq!(db.header.record_size, 6);
    assert_eq!(db.header.last_update, Date { year: 2019, month: 9, day: 4 });
    assert_eq!(db.header.fields.len(), 1);
    assert_eq!(db.header.fields[0].name, "ID");
    assert_eq!(db.header.fields[0].length, 5);
}

#[test]
fn descriptor_lengths_sum_to_record_size_minus_one() {
    let descriptors = vec![
        descriptor("A", b'C', 10),
        descriptor("B", b'N', 7),
        descriptor("C1", b'L', 1),
    ];
    let rows = vec![vec![0x20; 19]];
    let bytes = table(0x03, 1, &descriptors, &rows);
    let db = Database::parse("t.dbf", bytes, None).unwrap();
    let sum: usize = db.header.fields.iter().map(|f| f.length as usize).sum();
    assert_eq!(sum + 1, db.header.record_size as usize);
}

#[test]
fn header_rejects_short_and_malformed_input() {
    assert!(matches!(
        Database::parse("t.dbf", vec![0x03, 1, 1], None),
        Err(DbfError::InvalidData)
    ));
    // Month 13 in the last-update date.
    let descriptors = vec![descriptor("ID", b'N', 5)];
    let rows = vec![vec![0x20; 6]];
    let mut bytes = table(0x03, 1, &descriptors, &rows);
    bytes[2] = 13;
    assert!(matches!(
        Database::parse("t.dbf", bytes, None),
        Err(DbfError::InvalidData)
    ));
    // An unrecognized field tag.
    let descriptors = vec![descriptor("ID", b'Q', 5)];
    let bytes = table(0x03, 1, &descriptors, &rows);
    assert!(matches!(
        Database::parse("t.dbf", bytes, None),
        Err(DbfError::InvalidData)
    ));
}

#[test]
fn record_count_matches_exactly_when_not_truncated() {
    let descriptors = vec![descriptor("ID", b'N', 5)];
    let row = |v: &str| {
        let mut r = vec![0x20];
        r.extend_from_slice(v.as_bytes());
        r
    };
    let rows = vec![row("    1"), row("    2"), row("    3")];
    let bytes = table(0x03, 3, &descriptors, &rows);

    // Complete stream: as many records as advertised.
    let db = Database::parse("t.dbf", bytes.clone(), None).unwrap();
    let recs = db.into_iter().records();
    assert_eq!(recs.len(), 3);
    assert_eq!(
        recs[2].get("ID").unwrap(),
        &FieldValue::Numeric(NumericValue { negative: false, mantissa: 3, scale: 0 })
    );

    // Truncated stream: fewer.
    let cut = bytes.len() - 4;
    let truncated = bytes[..cut].to_vec();
    let db = Database::parse("t.dbf", truncated, None).unwrap();
    let recs = db.into_iter().records();
    assert!(recs.len() < 3);
    assert_eq!(recs.len(), 2);
}

#[test]
fn iteration_stops_silently_on_a_bad_row() {
    let descriptors = vec![descriptor("ID", b'N', 5)];
    let mut good = vec![0x20];
    good.extend_from_slice(b"    7");
    let mut bad = vec![0x20];
    bad.extend_from_slice(b"x bad");
    let mut later = vec![0x20];
    later.extend_from_slice(b"    9");
    let rows = vec![good, bad, later];
    let bytes = table(0x03, 3, &descriptors, &rows);
    let db = Database::parse("t.dbf", bytes, None).unwrap();
    let mut it = db.into_iter();
    assert!(it.next().is_some());
    assert!(it.next().is_none());
    // The sequence stays ended: the decodable row behind the bad one
    // never surfaces.
    assert!(it.next().is_none());
    assert!(it.next().is_none());
}

#[test]
fn foxpro_table_with_fpt_sidecar() {
    // Schema: ID:N, Name:C, created_at:T, join:D, active:L, transfers:I, notes:M.
    let descriptors = vec![
        descriptor("ID", b'N', 5),
        descriptor("Name", b'C', 10),
        descriptor("created_at", b'T', 8),
        descriptor("join", b'D', 8),
        descriptor("active", b'L', 1),
        descriptor("transfers", b'I', 4),
        descriptor("notes", b'M', 4),
    ];
    let mut row = vec![0x20];
    row.extend_from_slice(b"   20");
    row.extend_from_slice(b"srenauld  ");
    // 2019-09-04 is Julian day 2458731; 11:06:00 is 39,960,000 ms.
    row.extend_from_slice(&2458731u32.to_le_bytes());
    row.extend_from_slice(&39_960_000u32.to_le_bytes());
    row.extend_from_slice(b"19990903");
    row.push(b'Y');
    row.extend_from_slice(&5i32.to_le_bytes());
    row.extend_from_slice(&1u32.to_le_bytes()); // memo id 1

    let mut row2 = vec![0x20];
    row2.extend_from_slice(b"   34");
    row2.extend_from_slice(b"Another   ");
    // 11:40:00 is 42,000,000 ms.
    row2.extend_from_slice(&2458731u32.to_le_bytes());
    row2.extend_from_slice(&42_000_000u32.to_le_bytes());
    row2.extend_from_slice(b"20190904");
    row2.push(b'N');
    row2.extend_from_slice(&3i32.to_le_bytes());
    row2.extend_from_slice(&1u32.to_le_bytes()); // the same memo

    // The sidecar: fragment size 64, memo record at offset 64.
    let mut fpt = vec![0u8; 64];
    fpt[4..6].copy_from_slice(&64u16.to_le_bytes()); // block size
    fpt[7] = 64; // fragment size
    fpt.extend_from_slice(&[0, 0, 1, 0]); // record header, type byte at 2
    let payload = b"This is a note.";
    fpt.extend_from_slice(&(payload.len() as u32).to_be_bytes());
    fpt.extend_from_slice(payload);

    let bytes = table(0x30, 2, &descriptors, &[row, row2]);
    let memo = MemoContainer::FoxPro(FoxProMemoContainer::from_bytes(fpt).unwrap());
    let db = Database::parse("t.dbf", bytes, Some(memo)).unwrap();
    let mut it = db.into_iter();
    let record = it.next().expect("Expected one record");
    assert_eq!(
        record.get("ID").unwrap(),
        &FieldValue::Numeric(NumericValue { negative: false, mantissa: 20, scale: 0 })
    );
    assert_eq!(record.get("Name").unwrap(), &FieldValue::Text("srenauld".to_string()));
    assert_eq!(
        record.get("created_at").unwrap(),
        &FieldValue::DateTime(DateTime {
            date: Date { year: 2019, month: 9, day: 4 },
            hour: 11,
            minute: 6,
            second: 0,
        })
    );
    assert_eq!(
        record.get("join").unwrap(),
        &FieldValue::Date(Date { year: 1999, month: 9, day: 3 })
    );
    assert_eq!(record.get("active").unwrap(), &FieldValue::Boolean(Some(true)));
    assert_eq!(record.get("transfers").expect("No transfers"), &FieldValue::Integer(5));
    assert_eq!(
        record.get("notes").expect("No notes"),
        &FieldValue::Text("This is a note.".to_string())
    );
    let record2 = it.next().expect("Expected two records");
    assert_eq!(
        record2.get("ID").unwrap(),
        &FieldValue::Numeric(NumericValue { negative: false, mantissa: 34, scale: 0 })
    );
    assert_eq!(record2.get("Name").unwrap(), &FieldValue::Text("Another".to_string()));
    assert_eq!(
        record2.get("created_at").unwrap(),
        &FieldValue::DateTime(DateTime {
            date: Date { year: 2019, month: 9, day: 4 },
            hour: 11,
            minute: 40,
            second: 0,
        })
    );
    assert_eq!(
        record2.get("join").unwrap(),
        &FieldValue::Date(Date { year: 2019, month: 9, day: 4 })
    );
    assert_eq!(record2.get("active").unwrap(), &FieldValue::Boolean(Some(false)));
    assert_eq!(record2.get("transfers").expect("No transfers"), &FieldValue::Integer(3));
    assert_eq!(
        record2.get("notes").expect("No notes"),
        &FieldValue::Text("This is a note.".to_string())
    );
    assert!(it.next().is_none());
}

#[test]
fn dbase_table_with_dbt_sidecar_keeps_crlf() {
    let descriptors = vec![descriptor("ID", b'N', 5), descriptor("DESC", b'M', 10)];
    let mut row = vec![0x20];
    row.extend_from_slice(b"   87");
    row.extend_from_slice(b"         1"); // ASCII memo block number

    // The sidecar: default block size (0 means 512), memo in block 1.
    let mut dbt = vec![0u8; 512];
    dbt[0..4].copy_from_slice(&2u32.to_le_bytes()); // next available block
    let text = b"Our Original assortment...\r\na little taste of heaven.\r\nFor everyone.";
    dbt.extend_from_slice(text);
    dbt.push(0x1A);
    dbt.push(0x1A);

    let bytes = table(0x83, 1, &descriptors, &[row]);
    let memo = MemoContainer::DBase(DBaseMemoContainer::from_bytes(dbt).unwrap());
    let db = Database::parse("t.dbf", bytes, Some(memo)).unwrap();
    let mut it = db.into_iter();
    let record = it.next().expect("Expected one record in dbase III");
    assert_eq!(
        record.get("ID").unwrap(),
        &FieldValue::Numeric(NumericValue { negative: false, mantissa: 87, scale: 0 })
    );
    let desc = record.get("DESC").expect("No notes");
    match desc {
        FieldValue::Text(s) => {
            assert!(s.contains("\r\n"));
            assert_eq!(
                s,
                "Our Original assortment...\r\na little taste of heaven.\r\nFor everyone."
            );
        },
        other => panic!("expected text, got {:?}", other),
    }
}

#[test]
fn memo_without_sidecar_falls_back_to_raw_bytes() {
    let descriptors = vec![descriptor("notes", b'M', 4)];
    let mut row = vec![0x20];
    row.extend_from_slice(&[1, 2, 3, 4]);
    let bytes = table(0x03, 1, &descriptors, &[row]);
    let db = Database::parse("t.dbf", bytes, None).unwrap();
    let mut it = db.into_iter();
    let record = it.next().unwrap();
    assert_eq!(record.get("notes").unwrap(), &FieldValue::Unknown(vec![1, 2, 3, 4]));
}

#[test]
fn round_trip_of_one_record_per_variant() {
    // One descriptor per field-value variant; the built bytes decode
    // back to the values they were built from.
    let descriptors = vec![
        descriptor("text", b'C', 6),
        descriptor("num", b'N', 6),
        descriptor("int", b'I', 4),
        descriptor("flag", b'L', 1),
        descriptor("day", b'D', 8),
        descriptor("at", b'T', 8),
        descriptor("blob", b'M', 4),
    ];
    let mut row = vec![0x20];
    row.extend_from_slice(b"carrot");
    row.extend_from_slice(b"-31.25");
    row.extend_from_slice(&(-77i32).to_le_bytes());
    row.push(b'n');
    row.extend_from_slice(b"20200229");
    row.extend_from_slice(&2458731u32.to_le_bytes());
    row.extend_from_slice(&3_600_000u32.to_le_bytes());
    row.extend_from_slice(&[9, 9, 9, 9]);
    let bytes = table(0x03, 1, &descriptors, &[row]);
    let db = Database::parse("t.dbf", bytes, None).unwrap();
    let record = db.into_iter().next().unwrap();
    assert_eq!(record.get("text").unwrap(), &FieldValue::Text("carrot".to_string()));
    assert_eq!(
        record.get("num").unwrap(),
        &FieldValue::Numeric(NumericValue { negative: true, mantissa: 3125, scale: 2 })
    );
    assert_eq!(record.get("int").unwrap(), &FieldValue::Integer(-77));
    assert_eq!(record.get("flag").unwrap(), &FieldValue::Boolean(Some(false)));
    assert_eq!(record.get("day").unwrap(), &FieldValue::Date(Date { year: 2020, month: 2, day: 29 }));
    assert_eq!(
        record.get("at").unwrap(),
        &FieldValue::DateTime(DateTime {
            date: Date { year: 2019, month: 9, day: 4 },
            hour: 1,
            minute: 0,
            second: 0,
        })
    );
    assert_eq!(record.get("blob").unwrap(), &FieldValue::Unknown(vec![9, 9, 9, 9]));
    assert!(record.get("missing").is_none());
}

#[test]
fn read_bytes_reports_io_on_short_remainder() {
    let descriptors = vec![descriptor("ID", b'N', 5)];
    let rows = vec![vec![0x20; 6]];
    let bytes = table(0x03, 1, &descriptors, &rows);
    let total = bytes.len();
    let mut db = Database::parse("t.dbf", bytes, None).unwrap();
    assert_eq!(db.read_bytes(total + 1), Err(DbfError::Io));
    let got = db.read_bytes(6).unwrap();
    assert_eq!(got.len(), 6);
}
