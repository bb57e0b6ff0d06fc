use inventario::codec::decode_image_payload;
use inventario::item::InvError;
use inventario::store::storage_path;
use inventario::strutil::{file_name_of, image_file_name, path_join, str_le, u64_dec_string};

#[test]
fn decode_plain_base64() {
    assert_eq!(decode_image_payload("aGVsbG8=").unwrap(), b"hello".to_vec());
    assert_eq!(decode_image_payload("").unwrap(), Vec::<u8>::new());
}

#[test]
fn decode_strips_data_url_prefix() {
    assert_eq!(
        decode_image_payload("data:image/png;base64,aGVsbG8=").unwrap(),
        b"hello".to_vec()
    );
    assert_eq!(
        decode_image_payload("data:image/jpeg;base64,aGVsbG8=").unwrap(),
        b"hello".to_vec()
    );
}

#[test]
fn decode_rejects_malformed_base64() {
    assert_eq!(
        decode_image_payload("not valid!").unwrap_err(),
        InvError::ImageDecode
    );
    assert_eq!(
        decode_image_payload("data:image/png;base64,###").unwrap_err(),
        InvError::ImageDecode
    );
}

#[test]
fn error_messages() {
    assert_eq!(InvError::Persistence.message(), "database operation failed");
    assert_eq!(InvError::ImageDecode.message(), "invalid base64 image data");
    assert_eq!(InvError::ImageWrite.message(), "failed to write image file");
}

#[test]
fn image_file_names() {
    assert_eq!(image_file_name(0), "img_0.png");
    assert_eq!(image_file_name(1736067600123), "img_1736067600123.png");
    assert_eq!(image_file_name(-5), "img_-5.png");
}

#[test]
fn decimal_rendering() {
    assert_eq!(u64_dec_string(0), "0");
    assert_eq!(u64_dec_string(7), "7");
    assert_eq!(u64_dec_string(1050), "1050");
    assert_eq!(u64_dec_string(u64::MAX), "18446744073709551615");
}

#[test]
fn file_name_extraction() {
    assert_eq!(file_name_of("/a/b/img_1.png"), "img_1.png");
    assert_eq!(file_name_of("img_1.png"), "img_1.png");
    assert_eq!(file_name_of("/a/b/"), "");
    assert_eq!(file_name_of(""), "");
}

#[test]
fn path_joining() {
    assert_eq!(path_join("/data", "img_1.png"), "/data/img_1.png");
    assert_eq!(storage_path("/home/user/.data"), "/home/user/.data/inventario.db");
}

#[test]
fn timestamp_order_is_lexicographic() {
    assert!(str_le("2024-01-05 10:00:00", "2024-01-05 10:00:01"));
    assert!(!str_le("2024-01-05 10:00:01", "2024-01-05 10:00:00"));
    assert!(str_le("2023-12-31 23:59:59", "2024-01-01 00:00:00"));
    assert!(str_le("", "2024-01-01 00:00:00"));
    assert!(str_le("abc", "abc"));
}
