use peg_solitaire::bloom::{BloomFilter, LoadError, BYTES_LIMIT_BLOOM_FILTER};
use peg_solitaire::position::Position;

fn bincode_config() -> bincode::config::Configuration<
    bincode::config::LittleEndian,
    bincode::config::Fixint,
    bincode::config::Limit<BYTES_LIMIT_BLOOM_FILTER>,
> {
    bincode::config::Configuration::default()
}

#[test]
fn test_save_and_load_preserves_bloom_filter() {
    let mut filter = BloomFilter::new(13, 1);
    filter.insert(Position(3));
    filter.insert(Position(5));

    let bytes = filter.to_bytes();
    let filter2 = BloomFilter::load_from_slice(&bytes);

    assert!(filter == filter2);

    for i in 0..20 {
        let pos = Position(i);
        assert_eq!(filter.query(pos), filter2.query(pos));
    }
}

#[test]
fn a_new_filter_is_empty() {
    let filter = BloomFilter::new(13, 1);
    assert_eq!(filter.nr_bits(), 13);
    for i in 0..100 {
        assert!(!filter.query(Position(i)));
    }
}

#[test]
fn insert_sets_the_bit_of_the_remainder() {
    let mut filter = BloomFilter::new(13, 1);
    filter.insert(Position(3));
    filter.insert(Position(5 + 13 * 1000));
    for i in 0..200u64 {
        assert_eq!(filter.query(Position(i)), i % 13 == 3 || i % 13 == 5, "{i}");
    }
    // a false positive: never inserted, but with the remainder of one that was
    assert!(filter.query(Position(16)));
    // inserting again changes nothing
    let before = filter.to_bytes();
    filter.insert(Position(3));
    assert_eq!(filter.to_bytes(), before);
}

#[test]
fn no_false_negatives() {
    let mut filter = BloomFilter::new(1009, 1);
    let mut inserted = vec![];
    let mut x: u64 = 1;
    for _ in 0..300 {
        x = x.wrapping_mul(6364136223846793005).wrapping_add(1442695040888963407);
        let p = Position(x >> 31);
        filter.insert(p);
        inserted.push(p);
        for q in &inserted {
            assert!(filter.query(*q));
        }
    }
}

#[test]
fn always_true_answers_yes() {
    let filter = BloomFilter::always_true();
    assert_eq!(filter.nr_bits(), 1);
    for i in [0u64, 1, 2, 1 << 32, (1 << 33) - 1, u64::MAX] {
        assert!(filter.query(Position(i)));
    }
}

#[test]
fn the_file_layout() {
    let mut filter = BloomFilter::new(40, 1);
    filter.insert(Position(0));
    filter.insert(Position(9));
    filter.insert(Position(33));
    filter.insert(Position(39));
    let bytes = filter.to_bytes();
    let expected: Vec<u8> = vec![
        40, 0, 0, 0, // the size in bits
        1, 0, 0, 0, // the number of hash functions
        2, 0, 0, 0, 0, 0, 0, 0, // the number of words
        0x01, 0x02, 0, 0, // bits 0 and 9
        0x82, 0, 0, 0, // bits 33 and 39
    ];
    assert_eq!(bytes, expected);
}

#[test]
fn the_file_layout_is_the_one_of_bincode() {
    let mut filter = BloomFilter::new(1000, 1);
    let mut words = vec![0u32; 32];
    for i in [0u64, 1, 31, 32, 500, 731, 998, 999] {
        filter.insert(Position(i));
        words[(i / 32) as usize] |= 1 << (i % 32);
    }
    let encoded = bincode::encode_to_vec((1000u32, 1u32, words.clone()), bincode_config()).unwrap();
    assert_eq!(filter.to_bytes(), encoded);

    let loaded = BloomFilter::load_from_slice(&encoded);
    assert!(loaded == filter);
    let (decoded, read): ((u32, u32, Vec<u32>), usize) =
        bincode::decode_from_slice(&filter.to_bytes(), bincode_config()).unwrap();
    assert_eq!(decoded, (1000, 1, words));
    assert_eq!(read, 16 + 4 * 32);
}

#[test]
fn load_reads_the_bits_lowest_first() {
    let bytes: Vec<u8> = vec![
        33, 0, 0, 0, 1, 0, 0, 0, 2, 0, 0, 0, 0, 0, 0, 0, 0x04, 0, 0, 0x80, 0x01, 0, 0, 0,
    ];
    let filter = BloomFilter::load_from_slice(&bytes);
    assert_eq!(filter.nr_bits(), 33);
    for i in 0..33u64 {
        assert_eq!(filter.query(Position(i)), i == 2 || i == 31 || i == 32, "{i}");
    }
    // the position 35 has the remainder 2
    assert!(filter.query(Position(35)));
    // what is written again holds every bit of the words that were read
    assert_eq!(filter.to_bytes(), bytes);
}

#[test]
fn load_ignores_bytes_after_the_last_word() {
    let mut bytes: Vec<u8> = vec![8, 0, 0, 0, 1, 0, 0, 0, 1, 0, 0, 0, 0, 0, 0, 0, 0x11, 0, 0, 0];
    let plain = BloomFilter::load_from_slice(&bytes);
    bytes.extend_from_slice(&[1, 2, 3]);
    let longer = BloomFilter::load_from_slice(&bytes);
    assert!(plain == longer);
    assert!(longer.query(Position(4)));
    assert!(!longer.query(Position(1)));
}

#[test]
fn load_refuses_truncated_files() {
    let bytes: Vec<u8> = vec![8, 0, 0, 0, 1, 0, 0, 0, 1, 0, 0, 0, 0, 0, 0, 0, 0x11, 0, 0, 0];
    for cut in 0..bytes.len() {
        assert!(
            matches!(
                BloomFilter::try_load_from_slice(&bytes[..cut]),
                Err(LoadError::UnexpectedEnd)
            ),
            "{cut}"
        );
    }
    assert!(BloomFilter::try_load_from_slice(&bytes).is_ok());
}

#[test]
fn load_refuses_what_is_over_the_limit() {
    // 26214396 words are 16 + 104857584 bytes: just within the limit
    let mut bytes: Vec<u8> = vec![8, 0, 0, 0, 1, 0, 0, 0];
    bytes.extend_from_slice(&26214396u64.to_le_bytes());
    assert!(matches!(
        BloomFilter::try_load_from_slice(&bytes),
        Err(LoadError::UnexpectedEnd)
    ));
    // one word more is over the limit, however many bytes there are
    let mut bytes: Vec<u8> = vec![8, 0, 0, 0, 1, 0, 0, 0];
    bytes.extend_from_slice(&26214397u64.to_le_bytes());
    assert!(matches!(
        BloomFilter::try_load_from_slice(&bytes),
        Err(LoadError::LimitExceeded)
    ));
    let mut bytes: Vec<u8> = vec![8, 0, 0, 0, 1, 0, 0, 0];
    bytes.extend_from_slice(&u64::MAX.to_le_bytes());
    assert!(matches!(
        BloomFilter::try_load_from_slice(&bytes),
        Err(LoadError::LimitExceeded)
    ));
    // bincode draws the line at the same place
    let decoded: Result<((u32, u32, Vec<u32>), usize), _> =
        bincode::decode_from_slice(&bytes, bincode_config());
    assert!(matches!(
        decoded,
        Err(bincode::error::DecodeError::LimitExceeded)
    ));
}

#[test]
fn load_refuses_other_numbers_of_hash_functions() {
    for k in [0u8, 2, 3, 255] {
        let bytes: Vec<u8> = vec![8, 0, 0, 0, k, 0, 0, 0, 1, 0, 0, 0, 0, 0, 0, 0, 0x11, 0, 0, 0];
        assert!(matches!(
            BloomFilter::try_load_from_slice(&bytes),
            Err(LoadError::UnsupportedK)
        ));
    }
}

#[test]
fn load_refuses_files_with_too_few_words() {
    let bytes: Vec<u8> = vec![33, 0, 0, 0, 1, 0, 0, 0, 1, 0, 0, 0, 0, 0, 0, 0, 0x11, 0, 0, 0];
    assert!(matches!(
        BloomFilter::try_load_from_slice(&bytes),
        Err(LoadError::TooFewWords)
    ));
    let bytes: Vec<u8> = vec![1, 0, 0, 0, 1, 0, 0, 0, 0, 0, 0, 0, 0, 0, 0, 0];
    assert!(matches!(
        BloomFilter::try_load_from_slice(&bytes),
        Err(LoadError::TooFewWords)
    ));
}

#[test]
fn equality_looks_at_the_size_and_the_bits() {
    let mut a = BloomFilter::new(13, 1);
    let mut b = BloomFilter::new(13, 1);
    assert!(a == b);
    a.insert(Position(7));
    assert!(a != b);
    b.insert(Position(20));
    assert!(a == b);
    let c = BloomFilter::new(14, 1);
    assert!(BloomFilter::new(13, 1) != c);
    // bits that a file holds beyond the size do not count
    let one: Vec<u8> = vec![3, 0, 0, 0, 1, 0, 0, 0, 1, 0, 0, 0, 0, 0, 0, 0, 0x05, 0, 0, 0];
    let other: Vec<u8> = vec![3, 0, 0, 0, 1, 0, 0, 0, 1, 0, 0, 0, 0, 0, 0, 0, 0xfd, 0xff, 0, 0];
    let one = BloomFilter::load_from_slice(&one);
    let other = BloomFilter::load_from_slice(&other);
    assert!(one == other);
}
