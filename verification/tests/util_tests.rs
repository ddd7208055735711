//! Tests of the byte-level utilities and seed-mask helpers.

use libsufr::types::{IntWidth, OUTFILE_VERSION};
use libsufr::util::{
    read_text_length, seed_mask_difference, seed_mask_positions, slice_u8_to_vec, usize_to_bytes,
    valid_seed_mask, vec_to_slice_u8,
};

#[test]
fn test_seed_mask_positions() {
    assert_eq!(seed_mask_positions(b"101"), [0, 2]);
    assert_eq!(seed_mask_positions(b"101101"), [0, 2, 3, 5]);
}

#[test]
fn test_seed_mask_difference() {
    // Empty is not a failure
    assert_eq!(seed_mask_difference(&[]), Vec::<usize>::new());

    //              0  1
    // "100001" -> [0, 5]
    assert_eq!(seed_mask_difference(&[0, 5]), [0, 4]);
    //               0  1  2  3
    // "1001101" -> [0, 3, 4, 6]
    assert_eq!(seed_mask_difference(&[0, 3, 4, 6]), [0, 2, 2, 3]);
}

#[test]
fn test_read_text_length() {
    let mut data: Vec<u8> = vec![OUTFILE_VERSION, 1, 0, 0];
    data.extend_from_slice(&18u64.to_le_bytes());
    let res = read_text_length(&data);
    assert!(res.is_ok());
    let len = res.unwrap();
    assert_eq!(len, 18);

    let mut bad = data.clone();
    bad[0] = OUTFILE_VERSION.wrapping_add(1);
    assert!(read_text_length(&bad).is_err());
    assert!(read_text_length(&data[..10]).is_err());
}

#[test]
fn test_usize_to_bytes() {
    assert_eq!(usize_to_bytes(usize::MIN), [0, 0, 0, 0, 0, 0, 0, 0]);
    assert_eq!(usize_to_bytes(1), [1, 0, 0, 0, 0, 0, 0, 0]);
    assert_eq!(usize_to_bytes(10), [10, 0, 0, 0, 0, 0, 0, 0]);
    assert_eq!(usize_to_bytes(100), [100, 0, 0, 0, 0, 0, 0, 0]);
    assert_eq!(usize_to_bytes(1000), [232, 3, 0, 0, 0, 0, 0, 0]);
    assert_eq!(usize_to_bytes(10000), [16, 39, 0, 0, 0, 0, 0, 0]);
    assert_eq!(usize_to_bytes(100000), [160, 134, 1, 0, 0, 0, 0, 0]);
    assert_eq!(
        usize_to_bytes(usize::MAX),
        [255, 255, 255, 255, 255, 255, 255, 255]
    );
}

#[test]
fn test_slice_u8_to_vec() {
    let res = slice_u8_to_vec(&[0, 0, 0, 0], 1, IntWidth::U32);
    assert_eq!(res, &[0u64]);

    let res = slice_u8_to_vec(&[0, 0, 0, 0, 0, 0, 0, 0], 1, IntWidth::U64);
    assert_eq!(res, &[0u64]);

    let res = slice_u8_to_vec(&[1, 0, 0, 0], 1, IntWidth::U32);
    assert_eq!(res, &[1u64]);

    let res = slice_u8_to_vec(&[1, 0, 0, 0, 0, 0, 0, 0], 1, IntWidth::U64);
    assert_eq!(res, &[1u64]);

    let res = slice_u8_to_vec(&[255, 255, 255, 255], 1, IntWidth::U32);
    assert_eq!(res, &[u32::MAX as u64]);

    let res = slice_u8_to_vec(&[255, 255, 255, 255, 255, 255, 255, 255], 1, IntWidth::U64);
    assert_eq!(res, &[u64::MAX]);

    let res = slice_u8_to_vec(&[0, 0, 0, 0, 255, 255, 255, 255], 2, IntWidth::U32);
    assert_eq!(res, &[0u64, u32::MAX as u64]);

    let res = slice_u8_to_vec(
        &[
            0, 0, 0, 0, 0, 0, 0, 0, 255, 255, 255, 255, 255, 255, 255, 255,
        ],
        2,
        IntWidth::U64,
    );
    assert_eq!(res, &[0u64, u64::MAX]);
}

#[test]
fn test_vec_to_slice_u8() {
    let res = vec_to_slice_u8(&[0u64], IntWidth::U32);
    assert_eq!(res, &[0, 0, 0, 0]);

    let res = vec_to_slice_u8(&[0u64], IntWidth::U64);
    assert_eq!(res, &[0, 0, 0, 0, 0, 0, 0, 0]);

    let res = vec_to_slice_u8(&[1u64], IntWidth::U32);
    assert_eq!(res, &[1, 0, 0, 0]);

    let res = vec_to_slice_u8(&[1u64], IntWidth::U64);
    assert_eq!(res, &[1, 0, 0, 0, 0, 0, 0, 0]);

    let res = vec_to_slice_u8(&[u32::MAX as u64], IntWidth::U32);
    assert_eq!(res, &[255, 255, 255, 255]);

    let res = vec_to_slice_u8(&[u64::MAX], IntWidth::U64);
    assert_eq!(res, &[255, 255, 255, 255, 255, 255, 255, 255]);

    let res = vec_to_slice_u8(&[0u64, u32::MAX as u64], IntWidth::U32);
    assert_eq!(res, &[0, 0, 0, 0, 255, 255, 255, 255]);

    let res = vec_to_slice_u8(&[0u64, u64::MAX], IntWidth::U64);
    assert_eq!(
        res,
        &[0, 0, 0, 0, 0, 0, 0, 0, 255, 255, 255, 255, 255, 255, 255, 255]
    );
}

#[test]
fn test_codec_round_trip() {
    let values: Vec<u64> = vec![3, 0, 4294967295, 17];
    for width in [IntWidth::U32, IntWidth::U64] {
        let bytes = vec_to_slice_u8(&values, width);
        let back = slice_u8_to_vec(&bytes, values.len(), width);
        assert_eq!(back, values);
    }
}

#[test]
fn test_valid_seed_mask() {
    let valid = ["101", "1001", "1101", "10101", "1110110110100001"];
    let invalid = [
        "", "abc", "1", "11", "111", "0", "00", "0111", "11100", "1a01",
    ];

    for pattern in valid {
        assert!(valid_seed_mask(pattern));
    }

    for pattern in invalid {
        assert!(!valid_seed_mask(pattern));
    }
}
