use poptrie::bitmap::{popcount, test_bit};
use poptrie::format::{read_u16, read_u32, starts_with_magic};

fn set(bitmap: &mut [u8; 32], k: usize) {
    bitmap[k >> 3] |= 1 << (7 - (k & 7));
}

fn naive_rank(bitmap: &[u8; 32], k: usize) -> usize {
    (0..k).filter(|&p| bitmap[p >> 3] & (1 << (7 - (p & 7))) != 0).count()
}

#[test]
fn bit_zero_is_the_top_bit_of_the_first_octet() {
    let mut bitmap = [0u8; 32];
    bitmap[0] = 0x80;
    assert!(test_bit(&bitmap, 0));
    for k in 1..=255u8 {
        assert!(!test_bit(&bitmap, k), "{}", k);
    }
    let mut bitmap = [0u8; 32];
    bitmap[0] = 0x01;
    assert!(test_bit(&bitmap, 7));
    assert!(!test_bit(&bitmap, 0));
    let mut bitmap = [0u8; 32];
    bitmap[31] = 0x01;
    assert!(test_bit(&bitmap, 255));
    assert!(!test_bit(&bitmap, 254));
    let mut bitmap = [0u8; 32];
    bitmap[1] = 0x80;
    assert!(test_bit(&bitmap, 8));
    assert!(!test_bit(&bitmap, 7));
}

#[test]
fn every_single_bit_is_found_where_it_was_set() {
    for k in 0..256usize {
        let mut bitmap = [0u8; 32];
        set(&mut bitmap, k);
        for q in 0..256usize {
            assert_eq!(test_bit(&bitmap, q as u8), q == k);
        }
    }
}

#[test]
fn rank_at_the_octet_borders() {
    let ones = [0xffu8; 32];
    assert_eq!(popcount(&ones, 0), 0);
    assert_eq!(popcount(&ones, 7), 7);
    assert_eq!(popcount(&ones, 8), 8);
    assert_eq!(popcount(&ones, 255), 255);
    let zeros = [0u8; 32];
    for k in [0u8, 7, 8, 255] {
        assert_eq!(popcount(&zeros, k), 0);
    }
}

#[test]
fn rank_counts_strictly_below() {
    let mut bitmap = [0u8; 32];
    set(&mut bitmap, 0);
    assert_eq!(popcount(&bitmap, 0), 0);
    assert_eq!(popcount(&bitmap, 1), 1);
    let mut bitmap = [0u8; 32];
    set(&mut bitmap, 7);
    assert_eq!(popcount(&bitmap, 7), 0);
    assert_eq!(popcount(&bitmap, 8), 1);
    let mut bitmap = [0u8; 32];
    set(&mut bitmap, 8);
    assert_eq!(popcount(&bitmap, 8), 0);
    assert_eq!(popcount(&bitmap, 9), 1);
    let mut bitmap = [0u8; 32];
    set(&mut bitmap, 254);
    set(&mut bitmap, 255);
    assert_eq!(popcount(&bitmap, 254), 0);
    assert_eq!(popcount(&bitmap, 255), 1);
}

#[test]
fn rank_of_all_ones_is_the_position() {
    let ones = [0xffu8; 32];
    for k in 0..=255u8 {
        assert_eq!(popcount(&ones, k), k as usize);
    }
}

#[test]
fn rank_agrees_with_counting_bit_by_bit() {
    let mut state: u32 = 0x2545_f491;
    for _ in 0..40 {
        let mut bitmap = [0u8; 32];
        for octet in bitmap.iter_mut() {
            state ^= state << 13;
            state ^= state >> 17;
            state ^= state << 5;
            *octet = (state >> 11) as u8;
        }
        for k in 0..256usize {
            assert_eq!(popcount(&bitmap, k as u8), naive_rank(&bitmap, k), "{}", k);
        }
    }
}

#[test]
fn rank_over_words_and_octets() {
    // Bits 3, 64, 65, 130 and 200: one in the first word, two in the second,
    // one in the third, one in the fourth.
    let mut bitmap = [0u8; 32];
    for k in [3usize, 64, 65, 130, 200] {
        set(&mut bitmap, k);
    }
    assert_eq!(popcount(&bitmap, 3), 0);
    assert_eq!(popcount(&bitmap, 4), 1);
    assert_eq!(popcount(&bitmap, 64), 1);
    assert_eq!(popcount(&bitmap, 65), 2);
    assert_eq!(popcount(&bitmap, 66), 3);
    assert_eq!(popcount(&bitmap, 128), 3);
    assert_eq!(popcount(&bitmap, 131), 4);
    assert_eq!(popcount(&bitmap, 200), 4);
    assert_eq!(popcount(&bitmap, 201), 5);
    assert_eq!(popcount(&bitmap, 255), 5);
}

#[test]
fn little_endian_integers() {
    let bytes = [0x9c, 0x00, 0x48, 0x03, 0x78, 0x56, 0x34, 0x12, 0xff, 0xff, 0xff, 0xff];
    assert_eq!(read_u16(&bytes, 0), 156);
    assert_eq!(read_u16(&bytes, 2), 840);
    assert_eq!(read_u16(&bytes, 1), 0x4800);
    assert_eq!(read_u32(&bytes, 4), 0x1234_5678);
    assert_eq!(read_u32(&bytes, 0), 0x0348_009c);
    assert_eq!(read_u32(&bytes, 8), u32::MAX);
    assert_eq!(read_u16(&bytes, 10), u16::MAX);
}

#[test]
fn magic_at_the_start() {
    let mut data = vec![0u8; 16];
    assert!(!starts_with_magic(&data));
    data[0..4].copy_from_slice(b"PTV2");
    assert!(starts_with_magic(&data));
    assert!(!starts_with_magic(&data[..15]));
    data[3] = b'3';
    assert!(!starts_with_magic(&data));
}
