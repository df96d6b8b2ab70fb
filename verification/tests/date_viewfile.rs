use topictrend::date::Date;
use topictrend::viewfile::build_day_vector;
use topictrend::viewfile::parse_view_file;
use topictrend::DirectMap;
use topictrend::viewfile::encode_view_file;
use topictrend::viewfile::ViewFileError;

#[test]
fn date_validation() {
    assert!(Date::new(2024, 2, 29).is_some());
    assert!(Date::new(2023, 2, 29).is_none());
    assert!(Date::new(1900, 2, 29).is_none());
    assert!(Date::new(2000, 2, 29).is_some());
    assert!(Date::new(2024, 4, 31).is_none());
    assert!(Date::new(2024, 13, 1).is_none());
    assert!(Date::new(2024, 0, 1).is_none());
    assert!(Date::new(0, 1, 1).is_none());
}

#[test]
fn date_successor_rolls_over() {
    let next = |y: u16, m: u8, d: u8| Date::new(y, m, d).unwrap().succ();
    assert_eq!(next(2032, 10, 12), Date::new(2032, 10, 13).unwrap());
    assert_eq!(next(2032, 10, 31), Date::new(2032, 11, 1).unwrap());
    assert_eq!(next(2032, 12, 31), Date::new(2033, 1, 1).unwrap());
    assert_eq!(next(2032, 2, 28), Date::new(2032, 2, 29).unwrap());
    assert_eq!(next(2033, 2, 28), Date::new(2033, 3, 1).unwrap());
}

#[test]
fn date_order_and_day_numbers() {
    let a = Date::new(2032, 10, 12).unwrap();
    let b = Date::new(2032, 10, 13).unwrap();
    let c = Date::new(2033, 1, 1).unwrap();
    assert!(a.le(&b));
    assert!(!b.le(&a));
    assert_eq!(b.day_number() - a.day_number(), 1);
    // 19 days of October, 30 of November, 31 of December.
    assert_eq!(c.day_number() - a.day_number(), 81);
    assert_eq!(Date::new(1, 1, 1).unwrap().day_number(), 0);
}

#[test]
fn view_file_round_trip() {
    let views: Vec<u32> = vec![100, 200, 300, 600];
    let bytes = encode_view_file(&views);
    assert_eq!(bytes.len(), 16 + 4 * views.len());
    assert_eq!(&bytes[0..4], b"VIEW");
    assert_eq!(parse_view_file(&bytes), Ok(views));
}

#[test]
fn view_file_manual_layout() {
    let mut bytes: Vec<u8> = Vec::new();
    bytes.extend_from_slice(b"VIEW");
    bytes.extend_from_slice(&1u32.to_le_bytes());
    bytes.extend_from_slice(&4u64.to_le_bytes());
    for v in [100u32, 200, 300, 600] {
        bytes.extend_from_slice(&v.to_le_bytes());
    }
    assert_eq!(parse_view_file(&bytes), Ok(vec![100, 200, 300, 600]));
}

#[test]
fn view_file_empty_body() {
    let bytes = encode_view_file(&[]);
    assert_eq!(parse_view_file(&bytes), Ok(Vec::new()));
}

#[test]
fn view_file_errors() {
    assert_eq!(parse_view_file(b"VIE"), Err(ViewFileError::TooShort));
    assert_eq!(
        parse_view_file(b"WEIVxxxxxxxxxxxx"),
        Err(ViewFileError::BadMagic)
    );

    let mut bad_version: Vec<u8> = Vec::new();
    bad_version.extend_from_slice(b"VIEW");
    bad_version.extend_from_slice(&2u32.to_le_bytes());
    bad_version.extend_from_slice(&0u64.to_le_bytes());
    assert_eq!(parse_view_file(&bad_version), Err(ViewFileError::BadVersion));

    // Count says four entries, body holds one.
    let mut truncated: Vec<u8> = Vec::new();
    truncated.extend_from_slice(b"VIEW");
    truncated.extend_from_slice(&1u32.to_le_bytes());
    truncated.extend_from_slice(&4u64.to_le_bytes());
    truncated.extend_from_slice(&7u32.to_le_bytes());
    assert_eq!(parse_view_file(&truncated), Err(ViewFileError::WrongLength));

    // Body not a whole number of entries.
    let mut ragged: Vec<u8> = Vec::new();
    ragged.extend_from_slice(b"VIEW");
    ragged.extend_from_slice(&1u32.to_le_bytes());
    ragged.extend_from_slice(&0u64.to_le_bytes());
    ragged.push(9);
    assert_eq!(parse_view_file(&ragged), Err(ViewFileError::WrongLength));
}

#[test]
fn day_vector_scatter() {
    let mut id_to_qid = DirectMap::new(20);
    id_to_qid.insert(10, 1);
    id_to_qid.insert(11, 2);
    let mut qid_to_dense = DirectMap::new(5);
    qid_to_dense.insert(1, 0);
    qid_to_dense.insert(2, 2);
    // Page 12 is unknown and dropped; a repeated page overwrites.
    let rows = vec![(10, 42), (12, 9), (11, 7), (10, 50)];
    assert_eq!(
        build_day_vector(&rows, &id_to_qid, &qid_to_dense, 3),
        vec![50, 0, 7]
    );
}
