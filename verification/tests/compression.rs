use skanda_engine::pfr::compression::{decode_delta, decode_varint, encode_delta, encode_varint};
use skanda_engine::skanda::compression::{decode_inverted_entry, encode_inverted_entry};
use skanda_engine::skanda::index_file::inverted_entry_ok;

#[test]
fn varint_of_300_is_two_bytes() {
    let (buf, n) = encode_varint(300);
    assert_eq!(n, 2);
    assert_eq!(buf, [0xAC, 0x02, 0, 0, 0]);
}

#[test]
fn varint_edges() {
    assert_eq!(encode_varint(0), ([0, 0, 0, 0, 0], 1));
    assert_eq!(encode_varint(127), ([0x7F, 0, 0, 0, 0], 1));
    assert_eq!(encode_varint(128), ([0x80, 0x01, 0, 0, 0], 2));
    assert_eq!(encode_varint(u32::MAX), ([0xFF, 0xFF, 0xFF, 0xFF, 0x0F], 5));
}

#[test]
fn varint_reads_back_what_it_writes() {
    for v in [0u32, 1, 127, 128, 255, 300, 16383, 16384, 1 << 21, 1 << 28, u32::MAX - 1, u32::MAX] {
        let (buf, n) = encode_varint(v);
        let mut cursor = 0usize;
        assert_eq!(decode_varint(&buf[..n], &mut cursor), v);
        assert_eq!(cursor, n);
    }
}

#[test]
fn varint_reads_zero_past_the_end() {
    let bytes = [0xAC, 0x02];
    let mut cursor = 2usize;
    assert_eq!(decode_varint(&bytes, &mut cursor), 0);
    assert_eq!(cursor, 2);
}

#[test]
fn consecutive_varints_share_a_cursor() {
    let bytes = [0x05, 0xAC, 0x02, 0x7F];
    let mut cursor = 0usize;
    assert_eq!(decode_varint(&bytes, &mut cursor), 5);
    assert_eq!(decode_varint(&bytes, &mut cursor), 300);
    assert_eq!(decode_varint(&bytes, &mut cursor), 127);
    assert_eq!(cursor, 4);
}

#[test]
fn delta_encoding_is_gaps() {
    let enc = encode_delta(&[1, 5, 5, 300]);
    assert_eq!(enc, vec![1, 4, 0, 0xA7, 0x02]);
    assert_eq!(decode_delta(&enc, 4), vec![1, 5, 5, 300]);
}

#[test]
fn delta_of_nothing_is_nothing() {
    assert_eq!(encode_delta(&[]), Vec::<u8>::new());
    assert_eq!(decode_delta(&[], 0), Vec::<u32>::new());
}

#[test]
fn block_id_decoding_repeats_the_last_id_when_data_runs_out() {
    assert_eq!(decode_delta(&[1, 4], 4), vec![1, 5, 5, 5]);
}

#[test]
fn positional_decoding_stops_when_data_runs_out() {
    assert_eq!(skanda_engine::skanda::compression::decode_delta(&[1, 4], 4), vec![1, 5]);
    assert_eq!(skanda_engine::skanda::compression::decode_delta(&[1, 4, 0, 0xA7, 0x02], 4), vec![1, 5, 5, 300]);
}

#[test]
fn inverted_entry_layout() {
    let entries = vec![(3u32, vec![0u32, 10]), (7u32, vec![5u32])];
    let enc = encode_inverted_entry(&entries);
    assert_eq!(enc, vec![3, 2, 0, 10, 4, 1, 5]);
    assert_eq!(decode_inverted_entry(&enc), entries);
}

#[test]
fn inverted_entry_roundtrip_with_large_values() {
    let entries = vec![(0u32, vec![]), (70000u32, vec![1u32, 1, 65535]), (u32::MAX, vec![4000000000u32])];
    let enc = encode_inverted_entry(&entries);
    assert!(inverted_entry_ok(&enc));
    assert_eq!(decode_inverted_entry(&enc), entries);
}

#[test]
fn inverted_entry_check() {
    assert!(inverted_entry_ok(&[]));
    assert!(inverted_entry_ok(&[3, 2, 0, 10, 4, 1, 5]));
    // A number spread over six bytes cannot be read.
    assert!(!inverted_entry_ok(&[0x80, 0x80, 0x80, 0x80, 0x80, 0x01]));
    // A block id past u32::MAX.
    assert!(!inverted_entry_ok(&[0xFF, 0xFF, 0xFF, 0xFF, 0x0F, 0, 1, 0, 0]));
    assert_eq!(decode_inverted_entry(&[]), Vec::<(u32, Vec<u32>)>::new());
}
