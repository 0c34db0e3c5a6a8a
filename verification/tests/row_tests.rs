use minidb::errors::DbError;
use minidb::row::Row;

#[test]
fn test_row_round_trip() {
    let row = Row::new(42, "alice".to_string(), "alice@example.com".to_string());
    let bytes = row.serialize().unwrap();
    assert_eq!(bytes.len(), 295);
    let back = Row::deserialize(&bytes).unwrap();
    assert_eq!(back.get_id(), 42);
    assert_eq!(back.get_user_name(), "alice");
    assert_eq!(back.get_email(), "alice@example.com");
}

#[test]
fn test_row_field_padding() {
    // the username window holds "bob" and then zero bytes; the email
    // window holds "b@x" and then zero bytes.
    let row = Row::new(7, "bob".to_string(), "b@x".to_string());
    let bytes = row.serialize().unwrap();
    assert_eq!(&bytes[0..8], &[7, 0, 0, 0, 0, 0, 0, 0]);
    assert_eq!(&bytes[8..11], b"bob");
    for i in 11..40 {
        assert_eq!(bytes[i], 0);
    }
    assert_eq!(&bytes[40..43], b"b@x");
    for i in 43..295 {
        assert_eq!(bytes[i], 0);
    }
}

#[test]
fn test_row_boundary_widths() {
    // a 32-byte username and a 255-byte email still fit exactly.
    let name = "a".repeat(32);
    let mail = "m".repeat(255);
    let row = Row::new(1, name.clone(), mail.clone());
    let bytes = row.serialize().unwrap();
    let back = Row::deserialize(&bytes).unwrap();
    assert_eq!(back.get_user_name(), name);
    assert_eq!(back.get_email(), mail);
}

#[test]
fn test_row_too_large() {
    let row = Row::new(1, "a".repeat(33), "e".to_string());
    assert_eq!(row.serialize().unwrap_err(), DbError::RowTooLarge);
    let row = Row::new(1, "u".to_string(), "e".repeat(256));
    assert_eq!(row.serialize().unwrap_err(), DbError::RowTooLarge);
    // multi-byte characters count in bytes, not characters.
    let row = Row::new(1, "é".repeat(17), "e".to_string());
    assert_eq!(row.serialize().unwrap_err(), DbError::RowTooLarge);
}

#[test]
fn test_row_decode_error() {
    // a wrong length is rejected.
    assert_eq!(Row::deserialize(&[0u8; 10]).unwrap_err(), DbError::DecodeError);
    // an invalid UTF-8 prefix in the username window is rejected.
    let row = Row::new(5, "ok".to_string(), "ok".to_string());
    let mut bytes = row.serialize().unwrap();
    bytes[8] = 0xff;
    assert_eq!(Row::deserialize(&bytes).unwrap_err(), DbError::DecodeError);
}
