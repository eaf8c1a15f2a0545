use table_extension::bytes::{bytes_equal, bytes_less, fold_be_u128, from_be_bytes, to_be_bytes};
use table_extension::error::{unique_sub_status_code, TableError};
use table_extension::handle::{derive_handle, TableHandle};
use table_extension::key::{AccessKey, KeyType};

#[test]
fn big_endian_round_trip() {
    assert_eq!(to_be_bytes(0x0102, 4), vec![0, 0, 1, 2]);
    assert_eq!(from_be_bytes(&[0, 0, 1, 2], 4), 0x0102);
    assert_eq!(from_be_bytes(&[1, 2, 3], 2), 0x0102);
    let n: u128 = 0x0123456789abcdef0123456789abcdef;
    assert_eq!(to_be_bytes(n, 16), n.to_be_bytes().to_vec());
    assert_eq!(from_be_bytes(&n.to_be_bytes(), 16), n);
    assert_eq!(to_be_bytes(0, 0), Vec::<u8>::new());
}

#[test]
fn byte_strings_compare_by_content() {
    assert!(bytes_equal(b"abc", b"abc"));
    assert!(!bytes_equal(b"abc", b"abd"));
    assert!(!bytes_equal(b"ab", b"abc"));
    assert!(bytes_equal(b"", b""));
}

#[test]
fn handle_derivation_matches_digest() {
    assert_eq!(derive_handle(0, 0), TableHandle(294284197927973660676668354886091714884));
    assert_eq!(derive_handle(0, 1), TableHandle(187267989122364641638725157156538820950));
    assert_eq!(derive_handle(0, 2), TableHandle(160937847609835965615946043614408101562));
    assert_eq!(derive_handle(7, 1), TableHandle(102217416257923582916656393251260609638));
    assert_eq!(derive_handle(7, 2), TableHandle(335572624066726077482755849303024136949));
}

#[test]
fn handle_bytes_are_big_endian() {
    let h = TableHandle(0x0102);
    let mut expected = vec![0u8; 14];
    expected.extend_from_slice(&[1, 2]);
    assert_eq!(h.to_be_bytes(), expected);
}

#[test]
fn abort_codes_are_stable() {
    assert_eq!(unique_sub_status_code(0), 64237);
    assert_eq!(unique_sub_status_code(1), 25524);
    assert_eq!(unique_sub_status_code(2), 51155);
    assert!(unique_sub_status_code(200) <= 0xFFFF);
    assert_eq!(TableError::AlreadyExists.sub_status(), Some(64237));
    assert_eq!(TableError::NotFound.sub_status(), Some(25524));
    assert_eq!(TableError::NotEmpty.sub_status(), Some(51155));
    assert_eq!(TableError::InconsistentSize.sub_status(), None);
    assert_eq!(TableError::DuplicateHandle.sub_status(), None);
    assert!(TableError::NotEmpty.is_abort());
    assert!(!TableError::InconsistentSize.is_abort());
}

#[test]
fn access_keys_compose() {
    let resource = AccessKey::new(&[9, 9], vec![1, 2], KeyType::Resource);
    assert_eq!(resource.as_bytes(), &[9, 9, 1, 2]);
    let module = AccessKey::new(&[9, 9], vec![1, 2], KeyType::Module);
    assert_eq!(module.as_bytes(), &[1, 2]);
    let item = AccessKey::new(&[9, 9], vec![3], KeyType::TableItem);
    assert_eq!(item.as_bytes(), &[3]);
    assert_eq!(AccessKey::resource(&[5], &[6, 7]).as_bytes(), &[5, 6, 7]);
    assert_eq!(AccessKey::module(vec![4, 4]).as_bytes(), &[4, 4]);
    let mut expected = vec![0u8; 15];
    expected.push(1);
    expected.extend_from_slice(b"key");
    assert_eq!(AccessKey::table_item(&TableHandle(1), b"key").as_bytes(), expected.as_slice());
}

#[test]
fn digest_folds_to_low_128_bits() {
    let digest: Vec<u8> = (1..=32).collect();
    let mut low = [0u8; 16];
    low.copy_from_slice(&digest[16..]);
    assert_eq!(fold_be_u128(&digest), u128::from_be_bytes(low));
    assert_eq!(fold_be_u128(&[1, 2]), 0x0102);
    assert_eq!(fold_be_u128(&[]), 0);
    let seventeen: Vec<u8> = vec![0xff; 17];
    assert_eq!(fold_be_u128(&seventeen), u128::MAX);
}

#[test]
fn handle_display_is_hexadecimal() {
    assert_eq!(TableHandle(42).to_display_string(), "T-2A\n");
    assert_eq!(TableHandle(0).to_display_string(), "T-0\n");
    assert_eq!(TableHandle(0xABCDEF0123).to_display_string(), "T-ABCDEF0123\n");
    assert_eq!(TableHandle(u128::MAX).to_display_string(), format!("T-{:X}\n", u128::MAX));
}

#[test]
fn byte_strings_order_lexicographically() {
    assert!(bytes_less(b"a", b"b"));
    assert!(bytes_less(b"a", b"ab"));
    assert!(bytes_less(b"", b"a"));
    assert!(!bytes_less(b"ab", b"a"));
    assert!(!bytes_less(b"abc", b"abc"));
    assert!(bytes_less(&[1, 255], &[2, 0]));
}
