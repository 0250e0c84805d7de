use byte_entropy::freq::zip_map;
use byte_entropy::freq::ByteFreq;
use std::collections::HashMap;

/// Shannon entropy in bits per byte, derived from the exact counts the
/// library reports; zero for an empty input by policy.
fn entropy_bits(bf: &ByteFreq) -> f64 {
    let total = bf.total_bytes();
    if total == 0 {
        return 0.0;
    }
    let mut h: f64 = 0.0;
    for (_, c) in bf.counts() {
        let p = c as f64 / total as f64;
        h -= p * p.log2();
    }
    h
}

#[test]
fn zipper() {
    let mut m1: HashMap<&str, i64> = HashMap::new();
    let mut m2: HashMap<&str, f32> = HashMap::new();

    m1.insert("a", 1);
    m1.insert("b", 2);

    m2.insert("b", 0.22);
    m2.insert("c", 0.33);

    let z = zip_map(&m1, &m2);

    assert_eq!(z.get("a").unwrap(), &(Some(1), None));
    assert_eq!(z.get("b").unwrap(), &(Some(2), Some(0.22)));
    assert_eq!(z.get("c").unwrap(), &(None, Some(0.33)));
}

#[test]
fn zip_map_empty_sides() {
    let m1: HashMap<u8, u32> = HashMap::new();
    let mut m2: HashMap<u8, u64> = HashMap::new();
    m2.insert(7, 70);
    let z = zip_map(&m1, &m2);
    assert_eq!(z.len(), 1);
    assert_eq!(z.get(&7).unwrap(), &(None, Some(70)));
    let empty: HashMap<u8, u64> = HashMap::new();
    let z2 = zip_map(&empty, &empty);
    assert!(z2.is_empty());
}

#[test]
fn total_and_count_sum_match_input_length() {
    let bytes: Vec<u8> = vec![3, 1, 4, 1, 5, 9, 2, 6, 5, 3, 5];
    let bf = ByteFreq::from_bytes(&bytes);
    assert_eq!(bf.total_bytes(), bytes.len());
    let sum: usize = bf.counts().iter().map(|&(_, c)| c).sum();
    assert_eq!(sum, bf.total_bytes());
}

#[test]
fn add_accumulates_per_byte() {
    let mut bf = ByteFreq::new();
    assert_eq!(bf.total_bytes(), 0);
    bf.add(10);
    bf.add(10);
    bf.add(200);
    assert_eq!(bf.total_bytes(), 3);
    let cs = bf.counts();
    assert_eq!(cs, vec![(10, 2), (200, 1)]);
}

#[test]
fn frequencies_sum_to_one() {
    let mut bytes: Vec<u8> = Vec::new();
    for i in 0..997usize {
        bytes.push((i * i % 251) as u8);
    }
    let bf = ByteFreq::from_bytes(&bytes);
    let total = bf.total_bytes();
    let sum: f64 = bf.counts().iter().map(|&(_, c)| c as f64 / total as f64).sum();
    assert!((sum - 1.0).abs() < 1e-9);
}

#[test]
fn single_byte_value_has_zero_entropy() {
    let bytes: Vec<u8> = vec![0x41; 1000];
    let bf = ByteFreq::from_bytes(&bytes);
    assert_eq!(bf.total_bytes(), 1000);
    assert_eq!(bf.counts(), vec![(0x41, 1000)]);
    assert_eq!(entropy_bits(&bf), 0.0);
}

#[test]
fn uniform_bytes_have_eight_bits_entropy() {
    let mut bytes: Vec<u8> = (0..=255).collect();
    bytes.reverse();
    let bf = ByteFreq::from_bytes(&bytes);
    assert_eq!(bf.total_bytes(), 256);
    assert_eq!(entropy_bits(&bf), 8.0);
}

#[test]
fn empty_input_yields_zero_and_no_stats() {
    let bf = ByteFreq::from_bytes(&Vec::new());
    assert_eq!(bf.total_bytes(), 0);
    assert!(bf.counts().is_empty());
    assert!(bf.stats().is_empty());
    assert_eq!(entropy_bits(&bf), 0.0);
}

#[test]
fn stats_records_sorted_with_exact_frequencies() {
    let mut bf = ByteFreq::new();
    for _ in 0..3 {
        bf.add(b'A');
    }
    for _ in 0..7 {
        bf.add(b'B');
    }
    let sts = bf.stats();
    assert_eq!(sts.len(), 2);
    assert_eq!((sts[0].byte, sts[0].count, sts[0].total), (b'A', 3, 10));
    assert_eq!((sts[1].byte, sts[1].count, sts[1].total), (b'B', 7, 10));
    assert_eq!(sts[0].count as f64 / sts[0].total as f64, 0.3);
    assert_eq!(sts[1].count as f64 / sts[1].total as f64, 0.7);
}
