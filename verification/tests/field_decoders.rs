use dbase_parser::fields::{FieldTypeD, FieldTypeT, FieldTypeC, FieldTypeL, FieldTypeI, FieldTypeOldNumeric, FieldValue};
use dbase_parser::header::Database;
use dbase_parser::dates::{julian_day_to_date, Date, DateTime};
use dbase_parser::numeric::NumericValue;
use dbase_parser::DbfError;

#[test]
fn date_works() {
    let data = vec![0x32, 0x30, 0x31, 0x39, 0x30, 0x39, 0x30, 0x31];
    let mut db = Database::new_at("C:/test.txt");
    let o = FieldTypeD;
    assert_eq!(
        o.parse(&mut db, data).unwrap(),
        FieldValue::Date(Date { year: 2019, month: 9, day: 1 })
    );
}

#[test]
fn datetime_works() {
    let date = julian_day_to_date(2458730).unwrap();
    assert_eq!(date, Date { year: 2019, month: 9, day: 3 });

    let data = vec![0xB8, 0x83, 0x25, 0x00, 0x80, 0xEE, 0x36, 0x00];

    let mut db = Database::new_at("C:/test.txt");
    let o = FieldTypeT {};
    assert_eq!(
        o.parse(&mut db, data).unwrap(),
        FieldValue::DateTime(DateTime {
            date: Date { year: 2019, month: 3, day: 9 },
            hour: 1,
            minute: 0,
            second: 0,
        })
    );
}

#[test]
fn text_trims_padding() {
    let mut db = Database::new_at("t");
    let data = b"  hi there  \0\0".to_vec();
    let v = FieldTypeC.parse(&mut db, data).unwrap();
    assert_eq!(v, FieldValue::Text("hi there".to_string()));
}

#[test]
fn text_decodes_utf8() {
    let mut db = Database::new_at("t");
    // "héllo" in UTF-8, space padded.
    let data = vec![0x68, 0xC3, 0xA9, 0x6C, 0x6C, 0x6F, 0x20, 0x20];
    let v = FieldTypeC.parse(&mut db, data).unwrap();
    assert_eq!(v, FieldValue::Text("h\u{e9}llo".to_string()));
}

#[test]
fn text_rejects_invalid_utf8() {
    let mut db = Database::new_at("t");
    let data = vec![0xFF, 0xFE, 0x20];
    assert_eq!(FieldTypeC.parse(&mut db, data), Err(DbfError::InvalidData));
}

#[test]
fn boolean_three_valued() {
    let mut db = Database::new_at("t");
    assert_eq!(
        FieldTypeL.parse(&mut db, vec![0x59]).unwrap(),
        FieldValue::Boolean(Some(true))
    );
    assert_eq!(
        FieldTypeL.parse(&mut db, vec![0x6E]).unwrap(),
        FieldValue::Boolean(Some(false))
    );
    assert_eq!(
        FieldTypeL.parse(&mut db, vec![0x3F]).unwrap(),
        FieldValue::Boolean(None)
    );
}

#[test]
fn boolean_empty_is_invalid() {
    let mut db = Database::new_at("t");
    assert_eq!(FieldTypeL.parse(&mut db, vec![]), Err(DbfError::InvalidData));
}

#[test]
fn integer_little_endian() {
    let mut db = Database::new_at("t");
    assert_eq!(
        FieldTypeI.parse(&mut db, vec![0x05, 0x00, 0x00, 0x00]).unwrap(),
        FieldValue::Integer(5)
    );
    assert_eq!(
        FieldTypeI.parse(&mut db, vec![0xFF, 0xFF, 0xFF, 0xFF]).unwrap(),
        FieldValue::Integer(-1)
    );
    assert_eq!(
        FieldTypeI.parse(&mut db, vec![0x00, 0x00]),
        Err(DbfError::InvalidData)
    );
}

#[test]
fn numeric_exact_decimal() {
    let mut db = Database::new_at("t");
    assert_eq!(
        FieldTypeOldNumeric.parse(&mut db, b"   20".to_vec()).unwrap(),
        FieldValue::Numeric(NumericValue { negative: false, mantissa: 20, scale: 0 })
    );
    assert_eq!(
        FieldTypeOldNumeric.parse(&mut db, b" -12.50".to_vec()).unwrap(),
        FieldValue::Numeric(NumericValue { negative: true, mantissa: 1250, scale: 2 })
    );
    assert_eq!(
        FieldTypeOldNumeric.parse(&mut db, b"+.5".to_vec()).unwrap(),
        FieldValue::Numeric(NumericValue { negative: false, mantissa: 5, scale: 1 })
    );
    assert_eq!(
        FieldTypeOldNumeric.parse(&mut db, b"131".to_vec()).unwrap(),
        FieldValue::Numeric(NumericValue { negative: false, mantissa: 131, scale: 0 })
    );
}

#[test]
fn numeric_rejects_garbage() {
    let mut db = Database::new_at("t");
    assert_eq!(
        FieldTypeOldNumeric.parse(&mut db, b"abc".to_vec()),
        Err(DbfError::InvalidData)
    );
    assert_eq!(
        FieldTypeOldNumeric.parse(&mut db, b"1.2.3".to_vec()),
        Err(DbfError::InvalidData)
    );
    assert_eq!(
        FieldTypeOldNumeric.parse(&mut db, b"     ".to_vec()),
        Err(DbfError::InvalidData)
    );
    assert_eq!(
        FieldTypeOldNumeric.parse(&mut db, b".".to_vec()),
        Err(DbfError::InvalidData)
    );
}

#[test]
fn date_rejects_bad_calendar_days() {
    let mut db = Database::new_at("t");
    // The 29th of February 2019 does not exist; 2020 is a leap year.
    assert_eq!(
        FieldTypeD.parse(&mut db, b"20190229".to_vec()),
        Err(DbfError::InvalidData)
    );
    assert_eq!(
        FieldTypeD.parse(&mut db, b"20200229".to_vec()).unwrap(),
        FieldValue::Date(Date { year: 2020, month: 2, day: 29 })
    );
    assert_eq!(
        FieldTypeD.parse(&mut db, b"20191301".to_vec()),
        Err(DbfError::InvalidData)
    );
    assert_eq!(
        FieldTypeD.parse(&mut db, b"00000101".to_vec()),
        Err(DbfError::InvalidData)
    );
    assert_eq!(
        FieldTypeD.parse(&mut db, b"2019090".to_vec()),
        Err(DbfError::InvalidData)
    );
}

#[test]
fn timestamp_needs_eight_bytes_and_a_real_time() {
    let mut db = Database::new_at("t");
    assert_eq!(
        FieldTypeT.parse(&mut db, vec![0xB8, 0x83, 0x25, 0x00]),
        Err(DbfError::InvalidData)
    );
    // Milliseconds word beyond one day.
    let mut data = 2458552u32.to_le_bytes().to_vec();
    data.extend_from_slice(&86_400_000u32.to_le_bytes());
    assert_eq!(FieldTypeT.parse(&mut db, data), Err(DbfError::InvalidData));
    // Julian day zero falls before the year 1 CE.
    let mut data = 0u32.to_le_bytes().to_vec();
    data.extend_from_slice(&0u32.to_le_bytes());
    assert_eq!(FieldTypeT.parse(&mut db, data), Err(DbfError::InvalidData));
}
