use dbase_parser::header::{Database, Version};
use dbase_parser::memo::{DBaseMemoContainer, FoxProMemoContainer};
use dbase_parser::DbfError;

#[test]
fn version_bytes_map_to_their_variants() {
    assert_eq!(Version::from_byte(&0x02), Version::FoxBase);
    assert_eq!(Version::from_byte(&0x03), Version::dBASE3(false));
    assert_eq!(Version::from_byte(&0x83), Version::dBASE3(true));
    assert_eq!(Version::from_byte(&0x30), Version::VisualFoxPro(false, false));
    assert_eq!(Version::from_byte(&0x31), Version::VisualFoxPro(true, false));
    assert_eq!(Version::from_byte(&0x32), Version::VisualFoxPro(false, true));
    assert_eq!(Version::from_byte(&0x33), Version::VisualFoxPro(true, true));
    assert_eq!(Version::from_byte(&0x43), Version::dBASE4Table(false));
    assert_eq!(Version::from_byte(&0xcb), Version::dBASE4Table(true));
    assert_eq!(Version::from_byte(&0x63), Version::dBASE4System(false));
    assert_eq!(Version::from_byte(&0x8b), Version::dBASE4System(true));
    assert_eq!(Version::from_byte(&0xfb), Version::FoxPro2(false));
    assert_eq!(Version::from_byte(&0xf5), Version::FoxPro2(true));
    assert_eq!(Version::from_byte(&0xAA), Version::Unknown);
}

#[test]
fn new_at_is_an_empty_database() {
    let db = Database::new_at("C:/test.txt");
    assert_eq!(db.path, "C:/test.txt");
    assert_eq!(db.header.version, Version::Unknown);
    assert_eq!(db.header.record_count, 0);
    assert_eq!(db.header.record_size, 0);
    assert!(db.header.fields.is_empty());
    assert!(db.memo.is_none());
    // The last-update date is today, whatever today is — but it is a
    // real calendar date.
    let d = db.header.last_update;
    assert!(d.year >= 1 && (1..=12).contains(&d.month) && (1..=31).contains(&d.day));
}

#[test]
fn fpt_header_parses_and_resolves() {
    // Fragment size 32; the memo for id 2 sits at offset 64.
    let mut fpt = vec![0u8; 64];
    fpt[4] = 0; // block size 0 reads as 512
    fpt[7] = 32;
    fpt.extend_from_slice(&[0, 0, 1, 0]);
    fpt.extend_from_slice(&5u32.to_be_bytes());
    fpt.extend_from_slice(b"hello");
    let mut c = FoxProMemoContainer::from_bytes(fpt).unwrap();
    assert_eq!(c.block_size, 512);
    assert_eq!(c.fragment_size, 32);
    let got = c.memo(2u32.to_le_bytes().to_vec()).unwrap();
    assert_eq!(got, b"hello".to_vec());
    // A reference shorter than four bytes cannot name a memo.
    assert_eq!(c.memo(vec![1, 2]), Err(DbfError::InvalidData));
    // An id pointing past the end of the sidecar fails too.
    assert_eq!(c.memo(9999u32.to_le_bytes().to_vec()), Err(DbfError::InvalidData));
}

#[test]
fn fpt_too_short_for_a_header() {
    assert!(matches!(
        FoxProMemoContainer::from_bytes(vec![1, 2, 3]),
        Err(DbfError::InvalidData)
    ));
}

#[test]
fn dbt_resolves_ascii_block_numbers() {
    // Block size 16: the memo for block 2 sits at offset 32.
    let mut dbt = vec![0u8; 8];
    dbt[0] = 3;
    dbt[4] = 16;
    dbt.resize(32, 0);
    dbt.extend_from_slice(b"note body");
    dbt.push(0x1A);
    dbt.extend_from_slice(b"trailing garbage");
    let mut c = DBaseMemoContainer::from_bytes(dbt).unwrap();
    assert_eq!(c.block_size, 16);
    assert_eq!(c.next_available, 3);
    assert_eq!(c.memo(b"   2".to_vec()).unwrap(), b"note body".to_vec());
    // Without a terminator the payload runs to the end of the sidecar.
    assert_eq!(c.memo(b"3".to_vec()).unwrap(), b"ng garbage".to_vec());
}

#[test]
fn dbt_rejects_a_reference_that_is_not_a_number() {
    let mut dbt = vec![0u8; 8];
    dbt[4] = 16;
    let mut c = DBaseMemoContainer::from_bytes(dbt).unwrap();
    assert_eq!(c.memo(b" 12x".to_vec()), Err(DbfError::InvalidData));
    assert_eq!(c.memo(b"    ".to_vec()), Err(DbfError::InvalidData));
}
