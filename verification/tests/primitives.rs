use std::cmp::Ordering;

use cotopha::bytes::push_u32;
use cotopha::bytes::push_u64;
use cotopha::bytes::read_u32;
use cotopha::bytes::read_u64;
use cotopha::bytes::same_bytes;
use cotopha::bytes::starts_with;
use cotopha::bytes::take;
use cotopha::bytes::take_tag;
use cotopha::bytes::take_u32;
use cotopha::bytes::take_u64;
use cotopha::cmp_utf16;
use cotopha::extract_name;
use cotopha::format::all_zero;
use cotopha::format::slot_of;
use cotopha::rebuild::patch_u64;
use cotopha::sort::sort_addresses;
use cotopha::text::is_prologue;
use cotopha::text::is_reserved;
use cotopha::text::same_text;
use cotopha::validate_name;
use cotopha::Error;

fn utf16(name: &str) -> Vec<u8> {
    let mut bytes = Vec::new();
    for unit in name.encode_utf16() {
        bytes.extend_from_slice(&unit.to_le_bytes());
    }
    bytes
}

#[test]
fn names_compare_by_code_units() {
    assert_eq!(cmp_utf16(&utf16("a"), &utf16("b")), Ordering::Less);
    assert_eq!(cmp_utf16(&utf16("b"), &utf16("a")), Ordering::Greater);
    assert_eq!(cmp_utf16(&utf16("abc"), &utf16("abc")), Ordering::Equal);
    assert_eq!(cmp_utf16(&utf16("ab"), &utf16("abc")), Ordering::Less);
    assert_eq!(cmp_utf16(&utf16("abc"), &utf16("ab")), Ordering::Greater);
    assert_eq!(cmp_utf16(&utf16(""), &utf16("")), Ordering::Equal);
    assert_eq!(cmp_utf16(&utf16(""), &utf16("a")), Ordering::Less);
    assert_eq!(cmp_utf16(&[0x00, 0x01], &[0xff, 0x00]), Ordering::Greater);
    assert_eq!(cmp_utf16(&[0xff, 0x00], &[0x00, 0x01]), Ordering::Less);
    assert_eq!(cmp_utf16(&utf16("\u{1f600}"), &utf16("\u{ff5e}")), Ordering::Less);
    assert_eq!(cmp_utf16(&[1, 0, 9], &[1, 0, 7]), Ordering::Equal);
    assert_eq!(cmp_utf16(&[1], &[2]), Ordering::Equal);
}

#[test]
fn a_name_field_is_found_at_its_address() {
    let image = [9u8, 4, 2, 0, 0, 0, b'H', 0, b'i', 0, 7, 7];
    assert_eq!(extract_name(&image, 1).unwrap(), &[b'H', 0, b'i', 0]);
    assert!(matches!(extract_name(&image, 0), Err(Error::BadAddress)));
    assert!(matches!(extract_name(&image, 12), Err(Error::BadAddress)));
    assert!(matches!(extract_name(&image, 13), Err(Error::BadAddress)));
    assert!(matches!(extract_name(&image, u32::MAX), Err(Error::BadAddress)));
    assert!(matches!(extract_name(&image[..9], 1), Err(Error::BadAddress)));
    assert!(matches!(extract_name(&image[..5], 1), Err(Error::BadAddress)));
    assert_eq!(extract_name(&image[..10], 1).unwrap().len(), 4);
    let empty = [4u8, 0, 0, 0, 0];
    assert_eq!(extract_name(&empty, 0).unwrap(), &[] as &[u8]);
    let huge = [4u8, 0xff, 0xff, 0xff, 0xff, 1, 2];
    assert!(matches!(extract_name(&huge, 0), Err(Error::BadAddress)));
}

#[test]
fn a_name_is_held_against_its_field() {
    let image = [4u8, 1, 0, 0, 0, b'A', 0];
    assert!(validate_name(&image, 0, &[b'A', 0]).is_ok());
    assert!(matches!(validate_name(&image, 0, &[b'B', 0]), Err(Error::BadFunctionName)));
    assert!(matches!(validate_name(&image, 0, &[]), Err(Error::BadFunctionName)));
    assert!(matches!(validate_name(&image, 1, &[b'A', 0]), Err(Error::BadAddress)));
}

#[test]
fn numbers_are_little_endian() {
    assert_eq!(read_u32(&[0x78, 0x56, 0x34, 0x12, 0xff]), 0x1234_5678);
    assert_eq!(read_u32(&[0xff; 4]), u32::MAX);
    assert_eq!(read_u64(&[8, 7, 6, 5, 4, 3, 2, 1]), 0x0102_0304_0506_0708);
    assert_eq!(read_u64(&[0xff; 8]), u64::MAX);
    let mut out = vec![1u8];
    push_u32(&mut out, 0x1234_5678);
    push_u64(&mut out, 0x0102_0304_0506_0708);
    push_u32(&mut out, u32::MAX);
    push_u64(&mut out, 0);
    assert_eq!(
        out,
        vec![
            1, 0x78, 0x56, 0x34, 0x12, 8, 7, 6, 5, 4, 3, 2, 1, 0xff, 0xff, 0xff, 0xff, 0, 0, 0,
            0, 0, 0, 0, 0
        ]
    );
    patch_u64(&mut out, 1, u64::MAX - 1);
    assert_eq!(&out[..10], &[1, 0xfe, 0xff, 0xff, 0xff, 0xff, 0xff, 0xff, 0xff, 4]);
    assert_eq!(out.len(), 25);
}

#[test]
fn a_failing_read_leaves_the_cursor() {
    let bytes = [1u8, 2, 3, 4, 5, 6, 7, 8, 9, 10];
    let mut cursor = &bytes[..];
    assert_eq!(take(&mut cursor, 3).unwrap(), &[1, 2, 3]);
    assert_eq!(cursor, &bytes[3..]);
    assert!(matches!(take(&mut cursor, 8), Err(Error::UnexpectedEof)));
    assert_eq!(cursor, &bytes[3..]);
    assert!(matches!(take_u64(&mut cursor), Err(Error::UnexpectedEof)));
    assert!(matches!(take_tag(&mut cursor), Err(Error::UnexpectedEof)));
    assert_eq!(take_u32(&mut cursor).unwrap(), 0x0706_0504);
    assert_eq!(cursor, &bytes[7..]);
    assert!(matches!(take_u32(&mut cursor), Err(Error::UnexpectedEof)));
    assert_eq!(take(&mut cursor, 3).unwrap(), &[8, 9, 10]);
    assert_eq!(take(&mut cursor, 0).unwrap(), &[] as &[u8]);
    let mut cursor = &bytes[..];
    assert_eq!(take_u64(&mut cursor).unwrap(), 0x0807_0605_0403_0201);
    let mut cursor = &bytes[1..];
    assert_eq!(take_tag(&mut cursor).unwrap(), [2, 3, 4, 5, 6, 7, 8, 9]);
    assert_eq!(cursor, &[10]);
}

#[test]
fn bytes_compare() {
    assert!(same_bytes(&[], &[]));
    assert!(same_bytes(&[1, 2], &[1, 2]));
    assert!(!same_bytes(&[1, 2], &[1, 3]));
    assert!(!same_bytes(&[1, 2], &[1]));
    assert!(starts_with(&[1, 2, 3], &[]));
    assert!(starts_with(&[1, 2, 3], &[1, 2]));
    assert!(starts_with(&[1, 2, 3], &[1, 2, 3]));
    assert!(!starts_with(&[1, 2, 3], &[1, 2, 3, 4]));
    assert!(!starts_with(&[1, 2, 3], &[2]));
    assert!(all_zero(&[]));
    assert!(all_zero(&[0, 0]));
    assert!(!all_zero(&[0, 1]));
}

#[test]
fn tags_name_their_slots() {
    assert_eq!(slot_of(b"image   "), Some(0));
    assert_eq!(slot_of(b"function"), Some(1));
    assert_eq!(slot_of(b"global  "), Some(2));
    assert_eq!(slot_of(b"data    "), Some(3));
    assert_eq!(slot_of(b"conststr"), Some(4));
    assert_eq!(slot_of(b"linkinf "), Some(5));
    assert_eq!(slot_of(b"linkinf\0"), None);
    assert_eq!(slot_of(b"Image   "), None);
}

#[test]
fn addresses_are_sorted() {
    assert_eq!(sort_addresses(&vec![]), Vec::<u32>::new());
    assert_eq!(sort_addresses(&vec![5, 1, 4, 1, u32::MAX, 0]), vec![0, 1, 1, 4, 5, u32::MAX]);
    assert_eq!(sort_addresses(&vec![1, 2, 3]), vec![1, 2, 3]);
}

#[test]
fn names_are_told_apart() {
    assert!(is_reserved("@Initialize"));
    assert!(is_reserved("@"));
    assert!(!is_reserved(""));
    assert!(!is_reserved("a@"));
    assert!(!is_reserved("\u{ff20}x"));
    assert!(is_prologue("@Initialize"));
    assert!(!is_prologue("@initialize"));
    assert!(!is_prologue("@Initialize "));
    assert!(same_text("\u{540d}", "\u{540d}"));
    assert!(!same_text("a", "b"));
}
