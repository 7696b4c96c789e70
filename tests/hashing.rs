use bk_over_ssh::hashing::{sha1_hex, to_upper_hex, HashError, Sha1Readr};
use bk_over_ssh::hex::hex_eq_ignore_case;

#[test]
fn sha1_of_hello_is_known_digest() {
    assert_eq!(sha1_hex(b"hello"), "AAF4C61DDCC5E8A2DABEDE0F3B482CD9AEA9434D");
}

#[test]
fn sha1_of_empty_input() {
    assert_eq!(sha1_hex(b""), "DA39A3EE5E6B4B0D3255BFEF95601890AFD80709");
}

#[test]
fn upper_hex_formats_each_byte() {
    assert_eq!(to_upper_hex(&[0x00, 0x0f, 0xa5, 0xff]), "000FA5FF");
    assert_eq!(to_upper_hex(&[]), "");
}

#[test]
fn reader_accumulates_length_and_hash() {
    let mut r = Sha1Readr::new();
    r.update(b"hel");
    r.update(b"");
    r.update(b"lo");
    assert_eq!(r.get_length(), 5);
    assert_eq!(r.get_sha1(), Ok("AAF4C61DDCC5E8A2DABEDE0F3B482CD9AEA9434D".to_string()));
}

#[test]
fn reader_digest_is_taken_once() {
    let mut r = Sha1Readr::new();
    r.update(&[0u8; 1024]);
    assert!(r.get_sha1().is_ok());
    assert_eq!(r.get_sha1(), Err(HashError::AlreadyFinalized));
    assert_eq!(r.get_length(), 1024);
}

#[test]
fn hex_comparison_ignores_case() {
    assert!(hex_eq_ignore_case("aaf4c61d", "AAF4C61D"));
    assert!(!hex_eq_ignore_case("aaf4c61d", "AAF4C61E"));
    assert!(!hex_eq_ignore_case("aa", "aaa"));
}

#[test]
fn reader_gives_lower_case_file_hash() {
    let mut r = Sha1Readr::new();
    r.update(b"hello");
    assert_eq!(r.get_sha1_lower(), Ok("aaf4c61ddcc5e8a2dabede0f3b482cd9aea9434d".to_string()));
    assert_eq!(r.get_sha1_lower(), Err(HashError::AlreadyFinalized));
}

#[test]
fn lower_hex_formats_each_byte() {
    assert_eq!(bk_over_ssh::hashing::to_lower_hex(&[0x00, 0x0f, 0xa5, 0xff]), "000fa5ff");
}
