use bloom2::bloom::key_size_to_bits;
use bloom2::digest::{chunks_per_digest, positions_of, sub_index_at, to_be_bytes};
use bloom2::FilterSize;

const DIGEST: u64 = 12345678901234567890;

const SIZES: [FilterSize; 8] = [
    FilterSize::KeyBytes1,
    FilterSize::KeyBytes2,
    FilterSize::KeyBytes3,
    FilterSize::KeyBytes4,
    FilterSize::KeyBytes5,
    FilterSize::KeyBytes6,
    FilterSize::KeyBytes7,
    FilterSize::KeyBytes8,
];

#[test]
fn key_bytes_of_each_size() {
    let widths: Vec<usize> = SIZES.iter().map(|s| s.key_bytes()).collect();
    assert_eq!(widths, vec![1, 2, 3, 4, 5, 6, 7, 8]);
}

#[test]
fn be_bytes_most_significant_first() {
    assert_eq!(to_be_bytes(DIGEST), [171, 84, 169, 140, 235, 31, 10, 210]);
    assert_eq!(to_be_bytes(DIGEST), DIGEST.to_be_bytes());
    assert_eq!(to_be_bytes(0), [0; 8]);
    assert_eq!(to_be_bytes(1), [0, 0, 0, 0, 0, 0, 0, 1]);
    assert_eq!(to_be_bytes(u64::MAX), [255; 8]);
    assert_eq!(to_be_bytes(0x0102_0304_0506_0708), [1, 2, 3, 4, 5, 6, 7, 8]);
}

#[test]
fn chunk_count_is_eight_over_width_rounded_up() {
    let counts: Vec<usize> = SIZES.iter().map(|s| chunks_per_digest(*s)).collect();
    assert_eq!(counts, vec![8, 4, 3, 2, 2, 2, 2, 1]);
    for size in SIZES {
        let k = size.key_bytes();
        assert_eq!(chunks_per_digest(size), (8 + k - 1) / k);
    }
}

#[test]
fn positions_of_one_byte_chunks() {
    assert_eq!(
        positions_of(DIGEST, FilterSize::KeyBytes1),
        vec![171, 84, 169, 140, 235, 31, 10, 210]
    );
}

#[test]
fn positions_of_two_byte_chunks() {
    assert_eq!(
        positions_of(DIGEST, FilterSize::KeyBytes2),
        vec![43860, 43404, 60191, 2770]
    );
}

#[test]
fn positions_of_three_byte_chunks_end_with_a_short_one() {
    let keys = positions_of(DIGEST, FilterSize::KeyBytes3);
    assert_eq!(keys, vec![11228329, 9235231, 2770]);
    assert!(keys[2] <= 65535);
}

#[test]
fn positions_of_wider_chunks() {
    assert_eq!(
        positions_of(DIGEST, FilterSize::KeyBytes4),
        vec![2874452364, 3944680146]
    );
    assert_eq!(
        positions_of(DIGEST, FilterSize::KeyBytes5),
        vec![735859805419, 2034386]
    );
    assert_eq!(
        positions_of(DIGEST, FilterSize::KeyBytes6),
        vec![188380110187295, 2770]
    );
    assert_eq!(
        positions_of(DIGEST, FilterSize::KeyBytes7),
        vec![48225308207947530, 210]
    );
    assert_eq!(
        positions_of(DIGEST, FilterSize::KeyBytes8),
        vec![12345678901234567890]
    );
}

#[test]
fn positions_stay_inside_the_address_space() {
    for size in SIZES {
        let k = size.key_bytes() as u32;
        for digest in [0u64, 1, DIGEST, u64::MAX, 0x8000_0000_0000_0000] {
            let keys = positions_of(digest, size);
            assert_eq!(keys.len(), chunks_per_digest(size));
            for key in keys {
                assert!((key as u128) < 1u128 << (8 * k));
            }
        }
    }
}

#[test]
fn positions_of_extreme_digests() {
    assert_eq!(positions_of(0, FilterSize::KeyBytes3), vec![0, 0, 0]);
    assert_eq!(
        positions_of(u64::MAX, FilterSize::KeyBytes3),
        vec![0xff_ffff, 0xff_ffff, 0xffff]
    );
    assert_eq!(
        positions_of(u64::MAX, FilterSize::KeyBytes8),
        vec![usize::MAX]
    );
}

#[test]
fn sub_index_at_agrees_with_positions_of() {
    for size in SIZES {
        let keys = positions_of(DIGEST, size);
        for (i, key) in keys.iter().enumerate() {
            assert_eq!(sub_index_at(DIGEST, size, i), *key);
        }
    }
    assert_eq!(sub_index_at(DIGEST, FilterSize::KeyBytes2, 2), 60191);
}

#[test]
fn key_size_to_bits_is_256_to_the_width() {
    assert_eq!(key_size_to_bits(FilterSize::KeyBytes1), 256);
    assert_eq!(key_size_to_bits(FilterSize::KeyBytes2), 65_536);
    assert_eq!(key_size_to_bits(FilterSize::KeyBytes3), 16_777_216);
    assert_eq!(key_size_to_bits(FilterSize::KeyBytes4), 4_294_967_296);
    assert_eq!(key_size_to_bits(FilterSize::KeyBytes5), 1_099_511_627_776);
    assert_eq!(key_size_to_bits(FilterSize::KeyBytes6), 281_474_976_710_656);
    assert_eq!(
        key_size_to_bits(FilterSize::KeyBytes7),
        72_057_594_037_927_936
    );
}

#[test]
fn every_size_is_addressable_with_words_of_eight_bytes() {
    for size in SIZES {
        assert_eq!(
            size.is_addressable(),
            size.key_bytes() * 8 <= usize::BITS as usize
        );
    }
    assert!(FilterSize::KeyBytes1.is_addressable());
    assert!(FilterSize::KeyBytes4.is_addressable());
    if usize::BITS == 64 {
        assert!(FilterSize::KeyBytes8.is_addressable());
    }
}
