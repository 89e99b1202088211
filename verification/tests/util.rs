use remem_server::engine::util::bloom::BloomFilter;
use remem_server::engine::util::simd::brute_force_knn;

/// The bits that a filter needs for so many keys and such a false positive rate.
fn optimal_num_bits(n: usize, fp_rate: f64) -> u32 {
    let ln2_squared = std::f64::consts::LN_2 * std::f64::consts::LN_2;
    let m = -(n as f64) * fp_rate.ln() / ln2_squared;
    let m = ((m as u32 + 63) / 64) * 64;
    m.max(64)
}

fn optimal_num_hashes(num_bits: u32, num_items: usize) -> u8 {
    if num_items == 0 {
        return 1;
    }
    let k = (num_bits as f64 / num_items as f64) * std::f64::consts::LN_2;
    (k.ceil() as u8).clamp(1, 30)
}

fn filter_for(n: usize, fp_rate: f64) -> BloomFilter {
    let bits = optimal_num_bits(n, fp_rate);
    BloomFilter::with_params(bits, optimal_num_hashes(bits, n))
}

#[test]
fn test_insert_and_check() {
    let mut bloom = filter_for(1000, 0.01);
    bloom.insert(b"hello");
    bloom.insert(b"world");
    bloom.insert(b"test");
    assert!(bloom.may_contain(b"hello"));
    assert!(bloom.may_contain(b"world"));
    assert!(bloom.may_contain(b"test"));
}

#[test]
fn test_false_negatives() {
    let mut bloom = filter_for(1000, 0.01);
    for i in 0..100 {
        bloom.insert(format!("key{}", i).as_bytes());
    }
    for i in 0..100 {
        assert!(bloom.may_contain(format!("key{}", i).as_bytes()));
    }
}

#[test]
fn test_false_positive_rate() {
    let num_items = 10000;
    let expected_fp_rate = 0.01;
    let mut bloom = filter_for(num_items, expected_fp_rate);
    for i in 0..num_items {
        bloom.insert(format!("insert{}", i).as_bytes());
    }
    let test_count = 10000;
    let mut false_positives = 0;
    for i in 0..test_count {
        if bloom.may_contain(format!("check{}", i).as_bytes()) {
            false_positives += 1;
        }
    }
    let actual_fp_rate = false_positives as f64 / test_count as f64;
    assert!(
        actual_fp_rate < expected_fp_rate * 2.0,
        "False positive rate {} too high (expected < {})",
        actual_fp_rate,
        expected_fp_rate * 2.0
    );
}

#[test]
fn test_encode_decode() {
    let mut bloom = filter_for(100, 0.01);
    bloom.insert(b"key1");
    bloom.insert(b"key2");
    bloom.insert(b"key3");
    let encoded = bloom.encode();
    let decoded = BloomFilter::decode(&encoded).unwrap();
    assert_eq!(bloom.num_bits(), decoded.num_bits());
    assert_eq!(bloom.num_hashes(), decoded.num_hashes());
    assert!(decoded.may_contain(b"key1"));
    assert!(decoded.may_contain(b"key2"));
    assert!(decoded.may_contain(b"key3"));
}

#[test]
fn test_empty_filter() {
    let bloom = filter_for(100, 0.01);
    assert!(bloom.is_empty());
    let mut bloom2 = filter_for(100, 0.01);
    bloom2.insert(b"test");
    assert!(!bloom2.is_empty());
}

#[test]
fn test_clear() {
    let mut bloom = filter_for(100, 0.01);
    bloom.insert(b"test");
    assert!(!bloom.is_empty());
    bloom.clear();
    assert!(bloom.is_empty());
}

#[test]
fn table_filter_has_the_size_for_ten_thousand_keys() {
    use_sizes(10000, 0.01, 95872, 7);
}

fn use_sizes(n: usize, rate: f64, bits: u32, hashes: u8) {
    assert_eq!(optimal_num_bits(n, rate), bits);
    assert_eq!(optimal_num_hashes(bits, n), hashes);
}

#[test]
fn encoded_filter_has_its_sizes_in_front() {
    let bloom = BloomFilter::with_params(128, 3);
    let bytes = bloom.encode();
    assert_eq!(bytes.len(), 5 + 16);
    assert_eq!(&bytes[0..4], &[128, 0, 0, 0]);
    assert_eq!(bytes[4], 3);
    assert!(bytes[5..].iter().all(|b| *b == 0));
}

#[test]
fn short_filter_bytes_are_refused() {
    assert!(BloomFilter::decode(&[]).is_none());
    assert!(BloomFilter::decode(&[64, 0, 0, 0]).is_none());
    assert!(BloomFilter::decode(&[64, 0, 0, 0, 1, 0, 0, 0]).is_none());
    assert!(BloomFilter::decode(&[64, 0, 0, 0, 1, 0, 0, 0, 0, 0, 0, 0, 0]).is_some());
}

#[test]
fn set_bits_are_counted() {
    let mut bloom = BloomFilter::with_params(1024, 4);
    assert_eq!(bloom.set_bits(), 0);
    bloom.set_bit(3);
    bloom.set_bit(1023);
    bloom.set_bit(3);
    assert_eq!(bloom.set_bits(), 2);
    assert!(bloom.get_bit(3));
    assert!(bloom.get_bit(1023));
    assert!(!bloom.get_bit(4));
}

fn l2_distance_squared(a: &[f32], b: &[f32]) -> f32 {
    a.iter().zip(b).map(|(x, y)| (x - y) * (x - y)).sum()
}

#[test]
fn test_brute_force_knn() {
    let vectors = vec![
        vec![0.0, 0.0, 0.0],
        vec![1.0, 0.0, 0.0],
        vec![0.0, 1.0, 0.0],
        vec![2.0, 0.0, 0.0],
        vec![0.0, 0.0, 1.0],
    ];
    let query = vec![0.1, 0.0, 0.0];
    let distances: Vec<u32> =
        vectors.iter().map(|v| l2_distance_squared(&query, v).to_bits()).collect();
    let results = brute_force_knn(&distances, 3);
    assert_eq!(results.len(), 3);
    assert_eq!(results[0].0, 0);
    assert_eq!(results[1].0, 1);
}

#[test]
fn nearest_vectors_come_in_order() {
    let distances: Vec<u32> =
        [3.0f32, -1.0, 2.0, 2.0, 0.5].iter().map(|d| d.to_bits()).collect();
    let places =
        |k: usize| brute_force_knn(&distances, k).iter().map(|r| r.0).collect::<Vec<usize>>();
    assert_eq!(places(0), Vec::<usize>::new());
    assert_eq!(places(2), vec![1, 4]);
    assert_eq!(places(10), vec![1, 4, 2, 3, 0]);
}
