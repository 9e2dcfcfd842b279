use os_syscall::process::TimeVal;
use os_syscall::user_copy::{split_into_chunks, time_val_bytes, word_bytes};

#[test]
fn words_are_little_endian() {
    assert_eq!(word_bytes(0x0102030405060708), vec![8, 7, 6, 5, 4, 3, 2, 1]);
    assert_eq!(word_bytes(0), vec![0; 8]);
    assert_eq!(word_bytes(u64::MAX), vec![255; 8]);
}

#[test]
fn time_val_is_seconds_then_microseconds() {
    let bytes = time_val_bytes(&TimeVal { sec: 3, usec: 250_000 });
    let mut expected = 3u64.to_le_bytes().to_vec();
    expected.extend_from_slice(&250_000u64.to_le_bytes());
    assert_eq!(bytes, expected);
}

#[test]
fn time_val_split_across_two_pages() {
    let bytes = time_val_bytes(&TimeVal { sec: 0x1122, usec: 0x3344 });
    let chunks = split_into_chunks(&bytes, &vec![5, 11]);
    assert_eq!(chunks.len(), 2);
    assert_eq!(chunks[0], bytes[0..5].to_vec());
    assert_eq!(chunks[1], bytes[5..16].to_vec());
    assert_eq!(chunks.concat(), bytes);
}

#[test]
fn empty_chunks_are_allowed() {
    let bytes = vec![1u8, 2, 3];
    let chunks = split_into_chunks(&bytes, &vec![0, 3, 0]);
    assert_eq!(chunks, vec![vec![], vec![1, 2, 3], vec![]]);
}
