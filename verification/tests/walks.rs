use poptrie::index::IpSearcher;
use poptrie::walker::{read_leaf_value, walk_from, Walk};

fn set_bit(bitmap: &mut [u8], k: usize) {
    bitmap[k >> 3] |= 1 << (7 - (k & 7));
}

fn node(children: &[usize], leaves: &[usize], base_offset: u32, base_index: u32) -> Vec<u8> {
    let mut n = vec![0u8; 72];
    for &k in children {
        set_bit(&mut n[0..32], k);
    }
    for &k in leaves {
        set_bit(&mut n[32..64], k);
    }
    n[64..68].copy_from_slice(&base_offset.to_le_bytes());
    n[68..72].copy_from_slice(&base_index.to_le_bytes());
    n
}

fn with_header(nodes: &[Vec<u8>], values: &[u16]) -> Vec<u8> {
    let mut file = Vec::new();
    file.extend_from_slice(b"PTV2");
    file.extend_from_slice(&(nodes.len() as u32).to_le_bytes());
    file.extend_from_slice(&(values.len() as u32).to_le_bytes());
    file.extend_from_slice(&[0u8; 4]);
    for n in nodes {
        file.extend_from_slice(n);
    }
    for v in values {
        file.extend_from_slice(&v.to_le_bytes());
    }
    file
}

fn without_header(nodes: &[Vec<u8>]) -> Vec<u8> {
    nodes.concat()
}

/// The two prefixes 1.0.0.0/8 -> 156 and 8.8.8.0/24 -> 840.
fn sample() -> Vec<u8> {
    let root = node(&[8], &[1], 16 + 72, 0);
    let second = node(&[8], &[], 16 + 144, 1);
    let third = node(&[], &[8], 0, 1);
    with_header(&[root, second, third], &[156, 840])
}

#[test]
fn walk_ends_name_the_leaf() {
    let file = sample();
    let index = IpSearcher::new(&file).unwrap();
    assert_eq!(index.walk(&[1, 2, 3, 4]), Walk::Leaf { cursor: 16, octet: 1 });
    assert_eq!(index.walk(&[8, 8, 8, 8]), Walk::Leaf { cursor: 160, octet: 8 });
    assert_eq!(index.walk(&[8, 8, 9, 0]), Walk::Miss);
    assert_eq!(index.walk(&[0, 0, 0, 0]), Walk::Miss);
    assert_eq!(index.walk(&[]), Walk::Miss);
    assert_eq!(walk_from(&file, 16, &[8, 8, 8, 8]), Walk::Leaf { cursor: 160, octet: 8 });
    assert_eq!(walk_from(&file, 88, &[8, 8]), Walk::Leaf { cursor: 160, octet: 8 });
    assert_eq!(walk_from(&file, 160, &[8]), Walk::Leaf { cursor: 160, octet: 8 });
    assert_eq!(walk_from(&file, 160, &[9]), Walk::Miss);
}

#[test]
fn first_and_last_address_of_a_stored_range() {
    let file = sample();
    let index = IpSearcher::new(&file).unwrap();
    for (ip, code) in [
        ([1u8, 0, 0, 0], 156u16),
        ([1, 255, 255, 255], 156),
        ([0, 255, 255, 255], 0),
        ([2, 0, 0, 0], 0),
        ([8, 8, 8, 0], 840),
        ([8, 8, 8, 255], 840),
        ([8, 8, 7, 255], 0),
        ([8, 8, 9, 0], 0),
    ] {
        assert_eq!(index.lookup_code(&ip), code, "{:?}", ip);
        assert_eq!(index.contains_ip(&ip), code != 0, "{:?}", ip);
    }
}

#[test]
fn addresses_one_bit_away_from_a_stored_range() {
    let file = sample();
    let index = IpSearcher::new(&file).unwrap();
    for bit in 0..8 {
        let first = [8 ^ (1u8 << bit), 8, 8, 8];
        let middle = [8, 8 ^ (1u8 << bit), 8, 8];
        let third = [8, 8, 8 ^ (1u8 << bit), 8];
        let last = [8, 8, 8, 8 ^ (1u8 << bit)];
        // 8 ^ 9 == 1: flipping the lowest bit of the first octet lands in 1.0.0.0/8.
        let first_code = if first[0] == 1 { 156 } else { 0 };
        assert_eq!(index.lookup_code(&first), first_code, "{:?}", first);
        assert_eq!(index.contains_ip(&first), first_code != 0);
        assert_eq!(index.lookup_code(&middle), 0, "{:?}", middle);
        assert!(!index.contains_ip(&middle));
        assert_eq!(index.lookup_code(&third), 0, "{:?}", third);
        assert!(!index.contains_ip(&third));
        assert_eq!(index.lookup_code(&last), 840, "{:?}", last);
        assert!(index.contains_ip(&last));
    }
}

#[test]
fn contained_exactly_where_the_lookup_is_not_zero() {
    let file = sample();
    let index = IpSearcher::new(&file).unwrap();
    for a in [0u8, 1, 2, 7, 8, 9, 128, 255] {
        for b in [0u8, 7, 8, 9, 255] {
            for c in [0u8, 7, 8, 9, 255] {
                for d in [0u8, 8, 255] {
                    let ip = [a, b, c, d];
                    assert_eq!(index.contains_ip(&ip), index.lookup_code(&ip) != 0, "{:?}", ip);
                }
            }
        }
    }
}

#[test]
fn addresses_shorter_and_longer_than_four_octets() {
    let file = sample();
    let index = IpSearcher::new(&file).unwrap();
    assert!(!index.contains_ip(&[]));
    assert_eq!(index.lookup_code(&[]), 0);
    assert!(index.contains_ip(&[1]));
    assert_eq!(index.lookup_code(&[1]), 156);
    assert!(!index.contains_ip(&[8]));
    assert!(!index.contains_ip(&[8, 8]));
    assert!(index.contains_ip(&[8, 8, 8]));
    assert_eq!(index.lookup_code(&[8, 8, 8]), 840);
    assert!(index.contains_ip(&[8, 8, 8, 1, 2, 3]));
    assert_eq!(index.lookup_code(&[1, 2, 3, 4, 5, 6, 7, 8, 9, 10, 11, 12, 13, 14, 15, 16]), 156);
}

#[test]
fn child_offset_outside_the_region() {
    // The child for 5 is said to start past the end of the file.
    let root = node(&[5], &[1], 10_000, 0);
    let file = with_header(&[root], &[156]);
    let index = IpSearcher::new(&file).unwrap();
    assert_eq!(index.walk(&[5, 0, 0, 0]), Walk::CorruptIndex);
    assert!(!index.contains_ip(&[5, 0, 0, 0]));
    assert_eq!(index.lookup_code(&[5, 0, 0, 0]), 0);
    assert_eq!(index.walk(&[1, 0, 0, 0]), Walk::Leaf { cursor: 16, octet: 1 });
    assert_eq!(index.lookup_code(&[1, 0, 0, 0]), 156);
    // A walk that ends on its last octet never loads the node it was sent to.
    assert_eq!(index.walk(&[5]), Walk::Miss);
}

#[test]
fn child_node_cut_off_by_the_end_of_the_region() {
    // Two nodes and no values: the child is said to start one octet too late.
    let root = node(&[5], &[], 16 + 72 + 1, 0);
    let child = node(&[], &[7], 0, 0);
    let file = with_header(&[root, child], &[]);
    let index = IpSearcher::new(&file).unwrap();
    assert_eq!(index.walk(&[5, 7]), Walk::CorruptIndex);
    assert!(!index.contains_ip(&[5, 7]));
    // The largest offset a node can name lies far outside as well.
    let root = node(&[5], &[], u32::MAX, 0);
    let file = with_header(&[root], &[]);
    let index = IpSearcher::new(&file).unwrap();
    assert_eq!(index.walk(&[5, 7]), Walk::CorruptIndex);
    // With 255 children below, the offset is the base plus 255 nodes.
    let all: Vec<usize> = (0..256).collect();
    let root = node(&all, &[], u32::MAX, 0);
    let file = with_header(&[root], &[]);
    let index = IpSearcher::new(&file).unwrap();
    assert_eq!(index.walk(&[255, 7]), Walk::CorruptIndex);
}

#[test]
fn root_outside_a_region_without_nodes() {
    let file = with_header(&[], &[1, 2, 3]);
    let index = IpSearcher::new(&file).unwrap();
    assert_eq!(index.walk(&[1, 2, 3, 4]), Walk::CorruptIndex);
    assert!(!index.contains_ip(&[1, 2, 3, 4]));
    assert_eq!(index.lookup_code(&[1, 2, 3, 4]), 0);
    assert_eq!(walk_from(&file, usize::MAX, &[1]), Walk::CorruptIndex);
    assert_eq!(walk_from(&file, usize::MAX, &[]), Walk::Miss);
}

#[test]
fn empty_values_region() {
    let root = node(&[], &[1], 0, 0);
    let file = with_header(&[root], &[]);
    let index = IpSearcher::new(&file).unwrap();
    assert_eq!(index.values_count(), 0);
    assert!(index.contains_ip(&[1, 2, 3, 4]));
    assert_eq!(index.lookup_code(&[1, 2, 3, 4]), 0);
}

#[test]
fn headerless_region_answers_contains_only() {
    let root = node(&[8], &[1], 72, 0);
    let second = node(&[], &[8], 0, 0);
    let file = without_header(&[root, second]);
    let index = IpSearcher::new(&file).unwrap();
    assert!(index.contains_ip(&[1, 2, 3, 4]));
    assert!(index.contains_ip(&[8, 8, 0, 0]));
    assert!(!index.contains_ip(&[8, 9, 0, 0]));
    assert_eq!(index.lookup_code(&[1, 2, 3, 4]), 0);
    assert_eq!(index.lookup_code(&[8, 8, 0, 0]), 0);
}

#[test]
fn value_index_outside_the_table() {
    let root = node(&[], &[1, 2, 3], 0, 1);
    let file = with_header(&[root], &[11, 22]);
    let index = IpSearcher::new(&file).unwrap();
    assert_eq!(index.lookup_code(&[1, 0, 0, 0]), 22);
    assert_eq!(index.lookup_code(&[2, 0, 0, 0]), 0);
    assert_eq!(index.lookup_code(&[3, 0, 0, 0]), 0);
    assert!(index.contains_ip(&[2, 0, 0, 0]));
    let root = node(&[], &[1], 0, u32::MAX);
    let file = with_header(&[root], &[11, 22]);
    let index = IpSearcher::new(&file).unwrap();
    assert_eq!(index.lookup_code(&[1, 0, 0, 0]), 0);
}

#[test]
fn value_index_counts_leaves_not_children() {
    // Ten children below octet 10, but one leaf only.
    let children: Vec<usize> = (0..10).collect();
    let root = node(&children, &[3, 10], 16 + 72, 0);
    let mut nodes = vec![root];
    for _ in 0..10 {
        nodes.push(node(&[], &[], 0, 0));
    }
    let file = with_header(&nodes, &[100, 200, 300]);
    let index = IpSearcher::new(&file).unwrap();
    assert_eq!(index.lookup_code(&[3, 0, 0, 0]), 100);
    assert_eq!(index.lookup_code(&[10, 0, 0, 0]), 200);
    assert_eq!(read_leaf_value(&file, 16 + 11 * 72, 3, 16, 10), 200);
    assert_eq!(read_leaf_value(&file, 16 + 11 * 72, 3, 16, 3), 100);
    assert_eq!(read_leaf_value(&file, 16 + 11 * 72, 1, 16, 10), 0);
    assert_eq!(read_leaf_value(&file, 16 + 11 * 72, 0, 16, 3), 0);
}

#[test]
fn child_slot_counts_children_below() {
    // Children for 2, 4 and 200 sit in slots 0, 1 and 2.
    let root = node(&[2, 4, 200], &[], 16 + 72, 0);
    let under_2 = node(&[], &[20], 0, 0);
    let under_4 = node(&[], &[40], 0, 1);
    let under_200 = node(&[], &[0, 255], 0, 2);
    let file = with_header(&[root, under_2, under_4, under_200], &[1, 2, 3, 4]);
    let index = IpSearcher::new(&file).unwrap();
    assert_eq!(index.lookup_code(&[2, 20, 0, 0]), 1);
    assert_eq!(index.lookup_code(&[4, 40, 0, 0]), 2);
    assert_eq!(index.lookup_code(&[200, 0, 0, 0]), 3);
    assert_eq!(index.lookup_code(&[200, 255, 0, 0]), 4);
    assert_eq!(index.lookup_code(&[2, 40, 0, 0]), 0);
    assert_eq!(index.lookup_code(&[4, 20, 0, 0]), 0);
    assert_eq!(index.lookup_code(&[3, 20, 0, 0]), 0);
    assert_eq!(index.walk(&[200, 255]), Walk::Leaf { cursor: 16 + 3 * 72, octet: 255 });
}

#[test]
fn leaf_is_tested_before_child() {
    let root = node(&[9], &[9], 16 + 72, 0);
    let below = node(&[], &[9], 0, 1);
    let file = with_header(&[root, below], &[5, 6]);
    let index = IpSearcher::new(&file).unwrap();
    assert_eq!(index.walk(&[9, 9, 9, 9]), Walk::Leaf { cursor: 16, octet: 9 });
    assert_eq!(index.lookup_code(&[9, 9, 9, 9]), 5);
}

#[test]
fn sixteen_levels_for_a_long_address() {
    // One prefix of 128 bits: 1:2:3:4:5:6:7:8 spelled as octets 0,1,0,2,...
    let ip: Vec<u8> = (1..=8u8).flat_map(|g| [0, g]).collect();
    let mut nodes = Vec::new();
    for (level, &octet) in ip.iter().enumerate() {
        if level < 15 {
            nodes.push(node(&[octet as usize], &[], (16 + 72 * (level + 1)) as u32, 0));
        } else {
            nodes.push(node(&[], &[octet as usize], 0, 0));
        }
    }
    let file = with_header(&nodes, &[4242]);
    let index = IpSearcher::new(&file).unwrap();
    assert!(index.contains_ip(&ip));
    assert_eq!(index.lookup_code(&ip), 4242);
    assert_eq!(index.walk(&ip), Walk::Leaf { cursor: 16 + 72 * 15, octet: 8 });
    assert!(!index.contains_ip(&ip[..15]));
    let mut other = ip.clone();
    other[15] = 9;
    assert!(!index.contains_ip(&other));
    assert_eq!(index.lookup_code(&other), 0);
    other[15] = 8;
    other[0] = 1;
    assert!(!index.contains_ip(&other));
    assert!(!index.contains_ip(&[0u8; 16]));
    assert!(!index.contains_ip(&[255u8; 16]));
}
