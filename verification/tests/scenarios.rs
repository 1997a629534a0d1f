use poptrie::index::IpSearcher;

const NODE_SIZE: usize = 72;

fn set_bit(bitmap: &mut [u8], k: usize) {
    bitmap[k >> 3] |= 1 << (7 - (k & 7));
}

fn node(children: &[usize], leaves: &[usize], base_offset: u32, base_index: u32) -> Vec<u8> {
    let mut n = vec![0u8; NODE_SIZE];
    for &k in children {
        set_bit(&mut n[0..32], k);
    }
    for &k in leaves {
        set_bit(&mut n[32..64], k);
    }
    n[64..68].copy_from_slice(&base_offset.to_le_bytes());
    n[68..72].copy_from_slice(&base_index.to_le_bytes());
    n
}

fn with_header(nodes: &[Vec<u8>], values: &[u16]) -> Vec<u8> {
    let mut file = Vec::new();
    file.extend_from_slice(b"PTV2");
    file.extend_from_slice(&(nodes.len() as u32).to_le_bytes());
    file.extend_from_slice(&(values.len() as u32).to_le_bytes());
    file.extend_from_slice(&[0u8; 4]);
    for n in nodes {
        file.extend_from_slice(n);
    }
    for v in values {
        file.extend_from_slice(&v.to_le_bytes());
    }
    file
}

/// The two prefixes 1.0.0.0/8 -> 156 and 8.8.8.0/24 -> 840.
fn sample() -> Vec<u8> {
    let root = node(&[8], &[1], 16 + 72, 0);
    let second = node(&[8], &[], 16 + 144, 1);
    let third = node(&[], &[8], 0, 1);
    with_header(&[root, second, third], &[156, 840])
}

#[test]
fn address_under_short_prefix() {
    let file = sample();
    let index = IpSearcher::new(&file).unwrap();
    assert!(index.contains_ip(&[1, 2, 3, 4]));
    assert_eq!(index.lookup_code(&[1, 2, 3, 4]), 156);
}

#[test]
fn address_under_long_prefix() {
    let file = sample();
    let index = IpSearcher::new(&file).unwrap();
    assert!(index.contains_ip(&[8, 8, 8, 8]));
    assert_eq!(index.lookup_code(&[8, 8, 8, 8]), 840);
}

#[test]
fn address_beside_long_prefix() {
    let file = sample();
    let index = IpSearcher::new(&file).unwrap();
    assert!(!index.contains_ip(&[8, 8, 9, 0]));
    assert_eq!(index.lookup_code(&[8, 8, 9, 0]), 0);
}

#[test]
fn all_zero_and_all_ones_addresses() {
    let file = sample();
    let index = IpSearcher::new(&file).unwrap();
    assert!(!index.contains_ip(&[0, 0, 0, 0]));
    assert_eq!(index.lookup_code(&[0, 0, 0, 0]), 0);
    assert!(!index.contains_ip(&[255, 255, 255, 255]));
    assert_eq!(index.lookup_code(&[255, 255, 255, 255]), 0);
}

#[test]
fn packed_batch_of_three() {
    let file = sample();
    let index = IpSearcher::new(&file).unwrap();
    let packed = [1, 2, 3, 4, 8, 8, 8, 8, 9, 9, 9, 9];
    assert_eq!(index.contains_packed(&packed, false), vec![true, true, false]);
    assert_eq!(index.lookup_codes_packed(&packed, false), vec![156, 840, 0]);
}

#[test]
fn strings_batch_with_one_bad_text() {
    let file = sample();
    let index = IpSearcher::new(&file).unwrap();
    let texts = vec!["1.2.3.4".to_string(), "not-an-ip".to_string(), "8.8.8.8".to_string()];
    assert_eq!(index.lookup_codes_strings(texts.clone()), vec![156, 0, 840]);
    assert_eq!(index.contains_strings(texts), vec![true, false, true]);
}
