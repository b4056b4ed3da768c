use untron_program::block_id_to_number;
use untron_program::crypto::hash;
use untron_program::header::{parse_block_header, BlockHeader, HeaderError};
use untron_program::wire::{read_varint, u64_from_le_bytes, u64_to_be_bytes, VarintError};

fn header_bytes(timestamp: &[u8], root: [u8; 32], prev: [u8; 32], number: &[u8]) -> Vec<u8> {
    let mut raw = vec![0x08];
    raw.extend_from_slice(timestamp);
    raw.push(0x12);
    raw.push(32);
    raw.extend_from_slice(&root);
    raw.push(0x1a);
    raw.push(32);
    raw.extend_from_slice(&prev);
    raw.push(0x38);
    raw.extend_from_slice(number);
    raw
}

#[test]
fn varint_of_zero() {
    assert_eq!(read_varint(&[0x00]), Ok((0, 1)));
}

#[test]
fn varint_of_one_byte() {
    assert_eq!(read_varint(&[0x7f]), Ok((127, 1)));
}

#[test]
fn varint_of_two_bytes() {
    assert_eq!(read_varint(&[0xac, 0x02]), Ok((300, 2)));
}

#[test]
fn varint_stops_at_the_first_byte_without_continuation() {
    assert_eq!(read_varint(&[0x96, 0x01, 0xff, 0xff]), Ok((150, 2)));
}

#[test]
fn varint_of_the_largest_value() {
    let bytes = [0xff, 0xff, 0xff, 0xff, 0xff, 0xff, 0xff, 0xff, 0xff, 0x01];
    assert_eq!(read_varint(&bytes), Ok((u64::MAX, 10)));
}

#[test]
fn varint_with_long_zero_padding() {
    let bytes = [0x81, 0x80, 0x80, 0x80, 0x80, 0x80, 0x80, 0x80, 0x80, 0x80, 0x80, 0x00];
    assert_eq!(read_varint(&bytes), Ok((1, 12)));
}

#[test]
fn varint_that_does_not_fit() {
    let bytes = [0xff, 0xff, 0xff, 0xff, 0xff, 0xff, 0xff, 0xff, 0xff, 0x02];
    assert_eq!(read_varint(&bytes), Err(VarintError::Overflow));
    let longer = [0x80, 0x80, 0x80, 0x80, 0x80, 0x80, 0x80, 0x80, 0x80, 0x80, 0x01];
    assert_eq!(read_varint(&longer), Err(VarintError::Overflow));
}

#[test]
fn varint_without_an_end() {
    assert_eq!(read_varint(&[]), Err(VarintError::Truncated));
    assert_eq!(read_varint(&[0x80, 0xff]), Err(VarintError::Truncated));
    let overflowing = [0xff, 0xff, 0xff, 0xff, 0xff, 0xff, 0xff, 0xff, 0xff, 0xff, 0xff];
    assert_eq!(read_varint(&overflowing), Err(VarintError::Truncated));
}

#[test]
fn big_endian_bytes() {
    assert_eq!(u64_to_be_bytes(0x0102030405060708), [1, 2, 3, 4, 5, 6, 7, 8]);
    assert_eq!(u64_to_be_bytes(0), [0; 8]);
    assert_eq!(u64_to_be_bytes(u64::MAX), [0xff; 8]);
}

#[test]
fn little_endian_bytes() {
    let bytes = [9, 1, 2, 3, 4, 5, 6, 7, 8, 9];
    assert_eq!(u64_from_le_bytes(&bytes, 1), 0x0807060504030201);
    assert_eq!(u64_from_le_bytes(&[0xff; 8], 0), u64::MAX);
}

#[test]
fn block_number_is_read_from_bytes_four_to_seven() {
    let mut id = [0xee; 32];
    id[4..8].copy_from_slice(&[0x03, 0xdf, 0xb4, 0x01]);
    assert_eq!(block_id_to_number(id), 0x03dfb401);
}

#[test]
fn header_is_parsed() {
    let prev = [7u8; 32];
    let root = [9u8; 32];
    let mut raw = header_bytes(&[0xac, 0x02], root, prev, &[0x81, 0x01]);
    raw.extend_from_slice(&[0x4a, 0x01, 0x41]);
    let digest = hash(&raw);
    let mut id = digest;
    id[..8].copy_from_slice(&[0, 0, 0, 0, 0, 0, 0, 129]);
    let expected = BlockHeader { prev_block_id: prev, new_block_id: id, tx_root: root, timestamp: 300 };
    assert_eq!(parse_block_header(prev, &raw, digest), Ok(expected));
    assert_eq!(block_id_to_number(id), 129);
}

#[test]
fn header_with_the_largest_block_number() {
    let raw = header_bytes(&[0x01], [0; 32], [0; 32], &[0x80, 0x80, 0x80, 0x80, 0x10]);
    let header = parse_block_header([0; 32], &raw, [0xaa; 32]).unwrap();
    assert_eq!(&header.new_block_id[..8], &[0, 0, 0, 1, 0, 0, 0, 0]);
    assert_eq!(&header.new_block_id[8..], &[0xaa; 24]);
}

#[test]
fn header_with_too_large_a_block_number() {
    let raw = header_bytes(&[0x01], [0; 32], [0; 32], &[0x81, 0x80, 0x80, 0x80, 0x10]);
    assert_eq!(
        parse_block_header([0; 32], &raw, [0; 32]),
        Err(HeaderError::BlockNumberOutOfRange)
    );
}

#[test]
fn header_that_names_another_predecessor() {
    let raw = header_bytes(&[0x01], [0; 32], [1; 32], &[0x01]);
    assert_eq!(parse_block_header([2; 32], &raw, [0; 32]), Err(HeaderError::PrevBlockMismatch));
}

#[test]
fn header_with_a_wrong_tag() {
    let good = header_bytes(&[0x01], [0; 32], [1; 32], &[0x01]);
    for at in [0usize, 2, 36, 70] {
        let mut raw = good.clone();
        raw[at] ^= 0x40;
        assert_eq!(parse_block_header([1; 32], &raw, [0; 32]), Err(HeaderError::UnexpectedField));
    }
}

#[test]
fn header_with_a_wrong_length_byte() {
    let good = header_bytes(&[0x01], [0; 32], [1; 32], &[0x01]);
    for at in [3usize, 37] {
        let mut raw = good.clone();
        raw[at] = 31;
        assert_eq!(parse_block_header([1; 32], &raw, [0; 32]), Err(HeaderError::UnexpectedField));
    }
}

#[test]
fn header_that_ends_early() {
    let good = header_bytes(&[0x01], [0; 32], [1; 32], &[0x01]);
    for len in [0usize, 1, 2, 3, 20, 36, 37, 50, 70, 71] {
        assert_eq!(
            parse_block_header([1; 32], &good[..len], [0; 32]),
            Err(HeaderError::Truncated)
        );
    }
    assert!(parse_block_header([1; 32], &good[..72], [0; 32]).is_ok());
}

#[test]
fn header_with_an_integer_that_does_not_fit() {
    let big = [0xff, 0xff, 0xff, 0xff, 0xff, 0xff, 0xff, 0xff, 0xff, 0x02];
    let raw = header_bytes(&big, [0; 32], [1; 32], &[0x01]);
    assert_eq!(parse_block_header([1; 32], &raw, [0; 32]), Err(HeaderError::VarintOverflow));
    let raw = header_bytes(&[0x01], [0; 32], [1; 32], &big);
    assert_eq!(parse_block_header([1; 32], &raw, [0; 32]), Err(HeaderError::VarintOverflow));
}
