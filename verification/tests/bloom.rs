use bloom_filter::BloomFilter;

#[test]
fn insert() {
    let mut bloom = BloomFilter::new(100, 1, 100);
    bloom.insert("item".as_bytes());
    assert!(bloom.contains("item".as_bytes()));
}

#[test]
fn check_and_insert() {
    let mut bloom = BloomFilter::new(100, 1, 100);
    assert!(!bloom.contains("item_1".as_bytes()));
    assert!(!bloom.contains("item_2".as_bytes()));
    bloom.insert("item_1".as_bytes());
    assert!(bloom.contains("item_1".as_bytes()));
    assert!(!bloom.contains("item_2".as_bytes()));
}

#[test]
fn no_false_negatives() {
    let mut bloom = BloomFilter::new(100, 1, 100);
    for i in 0..100 {
        let item = format!("element_{}", i);
        bloom.insert(item.as_bytes());
        assert!(bloom.contains(item.as_bytes()));
    }
    for i in 0..100 {
        let item = format!("element_{}", i);
        assert!(bloom.contains(item.as_bytes()));
    }
}

#[test]
fn empty_filter_contains_nothing() {
    let mut bloom = BloomFilter::new(100, 1, 100);
    for i in 0..bloom.bit_count() {
        assert!(!bloom.bit_at(i));
    }
    for i in 0..1000 {
        let item = format!("sample_{}", i);
        assert!(!bloom.contains(item.as_bytes()));
    }
}

fn all_bits(bloom: &BloomFilter) -> Vec<bool> {
    (0..bloom.bit_count()).map(|i| bloom.bit_at(i)).collect()
}

#[test]
fn insert_is_idempotent() {
    let mut bloom = BloomFilter::new(100, 1, 100);
    bloom.insert("item".as_bytes());
    let after_once = all_bits(&bloom);
    assert!(after_once.iter().any(|&bit| bit));
    bloom.insert("item".as_bytes());
    bloom.insert("item".as_bytes());
    assert_eq!(all_bits(&bloom), after_once);
}

#[test]
fn independent_seeds_per_filter() {
    let mut first = BloomFilter::new(100, 1, 100);
    let mut second = BloomFilter::new(100, 1, 100);
    first.insert("item".as_bytes());
    second.insert("item".as_bytes());
    assert_ne!(all_bits(&first), all_bits(&second));
}

#[test]
fn exact_sizing() {
    // m = ceil(-items * ln(p) / (ln 2)^2): 958.50... and 479.25...
    let bloom = BloomFilter::new(100, 1, 100);
    assert_eq!(bloom.probe_count(), 7);
    assert_eq!(bloom.bit_count(), 959);

    let coarse = BloomFilter::new(100, 1, 10);
    assert_eq!(coarse.probe_count(), 4);
    assert_eq!(coarse.bit_count(), 480);
}

#[test]
fn sizing_monotone_in_items() {
    let mut previous = 0;
    for items in [1, 10, 100, 1000, 10000] {
        let bloom = BloomFilter::new(items, 1, 100);
        assert!(bloom.bit_count() >= previous);
        previous = bloom.bit_count();
    }
}

#[test]
fn sizing_monotone_in_fp_rate() {
    let mut previous_m = 0;
    let mut previous_k = 0;
    for denominator in [2, 10, 100, 1000, 1000000] {
        let bloom = BloomFilter::new(100, 1, denominator);
        assert!(bloom.bit_count() >= previous_m);
        assert!(bloom.probe_count() >= previous_k);
        previous_m = bloom.bit_count();
        previous_k = bloom.probe_count();
    }
}

#[test]
fn false_positive_rate_is_bounded() {
    let mut bloom = BloomFilter::new(100, 1, 100);
    for i in 0..100 {
        let item = format!("member_{}", i);
        bloom.insert(item.as_bytes());
    }
    let mut false_positives = 0;
    for i in 0..10000 {
        let item = format!("outsider_{}", i);
        if bloom.contains(item.as_bytes()) {
            false_positives += 1;
        }
    }
    // The observed rate should approximate the configured 1%; allow generous
    // slack so that the statistical check never trips on an honest filter.
    assert!(false_positives <= 300, "false positives: {}", false_positives);
}
