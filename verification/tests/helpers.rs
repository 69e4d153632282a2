use gauntlet::codec::{read_model, write_model};
use gauntlet::error::Error;
use gauntlet::ieee::{equal, finite, nan, rank_of};
use gauntlet::models::WordVec;
use gauntlet::sort::sort_pairs;
use gauntlet::text::{chars_of, decimal, decimal_digits, string_of};
use gauntlet::window::{window_pairs, Cooccurrence};

#[test]
fn patterns_that_are_no_numbers() {
    assert!(nan(f32::NAN.to_bits()));
    assert!(nan((-f32::NAN).to_bits()));
    assert!(nan(0x7f80_0001));
    assert!(nan(0xffff_ffff));
    assert!(!nan(f32::INFINITY.to_bits()));
    assert!(!nan(f32::NEG_INFINITY.to_bits()));
    assert!(!nan(0));
    assert!(!nan(1.5f32.to_bits()));
}

#[test]
fn patterns_of_finite_numbers() {
    assert!(finite(0));
    assert!(finite((-0.0f32).to_bits()));
    assert!(finite(f32::MAX.to_bits()));
    assert!(finite(f32::MIN.to_bits()));
    assert!(finite(f32::MIN_POSITIVE.to_bits()));
    assert!(!finite(f32::INFINITY.to_bits()));
    assert!(!finite(f32::NEG_INFINITY.to_bits()));
    assert!(!finite(f32::NAN.to_bits()));
}

#[test]
fn ranks_order_as_the_numbers_do() {
    let numbers = [f32::NEG_INFINITY, f32::MIN, -2.5, -1.0, -f32::MIN_POSITIVE, -1e-45, -0.0, 0.0,
                   1e-45, f32::MIN_POSITIVE, 0.1, 1.0, 1.0000001, 2.5, 3.0e38, f32::MAX,
                   f32::INFINITY];
    for a in numbers {
        for b in numbers {
            let (ra, rb) = (rank_of(a.to_bits()), rank_of(b.to_bits()));
            assert_eq!(a < b, ra < rb);
            assert_eq!(a == b, ra == rb);
            assert_eq!(a == b, equal(a.to_bits(), b.to_bits()));
        }
    }
    assert_eq!(rank_of(0), 0);
    assert_eq!(rank_of(0x8000_0000), 0);
    assert_eq!(rank_of(1), 1);
    assert_eq!(rank_of(0x8000_0001), -1);
}

#[test]
fn what_is_no_number_equals_nothing() {
    let nan = f32::NAN.to_bits();
    assert!(!equal(nan, nan));
    assert!(!equal(nan, 0));
    assert!(!equal(1, nan));
}

#[test]
fn pairs_are_sorted_by_key_and_place() {
    let pairs = vec![(5, 0), (1, 1), (5, 2), (0, 3), (1, 4), (u64::MAX, 5), (0, 6)];
    assert_eq!(sort_pairs(&pairs),
               vec![(0, 3), (0, 6), (1, 1), (1, 4), (5, 0), (5, 2), (u64::MAX, 5)]);
    assert_eq!(sort_pairs(&vec![]), vec![]);
    assert_eq!(sort_pairs(&vec![(3, 3)]), vec![(3, 3)]);
    assert_eq!(sort_pairs(&vec![(2, 1), (2, 0), (2, 1)]), vec![(2, 0), (2, 1), (2, 1)]);
}

#[test]
fn many_pairs_are_sorted() {
    let mut pairs = Vec::new();
    let mut x: u64 = 12345;
    for i in 0..1000usize {
        x = x.wrapping_mul(6364136223846793005).wrapping_add(1442695040888963407);
        pairs.push((x >> 54, i));
    }
    let mut expected = pairs.clone();
    expected.sort();
    assert_eq!(sort_pairs(&pairs), expected);
}

#[test]
fn decimal_texts() {
    assert_eq!(decimal(0), "0");
    assert_eq!(decimal(7), "7");
    assert_eq!(decimal(-7), "-7");
    assert_eq!(decimal(1000), "1000");
    assert_eq!(decimal(i32::MAX), "2147483647");
    assert_eq!(decimal(i32::MIN), "-2147483648");
    assert_eq!(decimal_digits(0), "0");
    assert_eq!(decimal_digits(9), "9");
    assert_eq!(decimal_digits(10), "10");
    assert_eq!(decimal_digits(1234567890), "1234567890");
    assert_eq!(decimal_digits(u64::MAX), "18446744073709551615");
}

#[test]
fn characters_and_strings() {
    assert_eq!(chars_of("aé∑"), vec!['a', 'é', '∑']);
    assert_eq!(chars_of(""), vec![]);
    let chars = vec!['h', 'e', 'l', 'l', 'o'];
    assert_eq!(string_of(&chars, 1, 4), "ell");
    assert_eq!(string_of(&chars, 0, 5), "hello");
    assert_eq!(string_of(&chars, 2, 2), "");
}

#[test]
fn window_pairs_of_a_sentence() {
    let slots = vec![Some(4), None, Some(2), Some(4)];
    let pair = |from, to, dist| Cooccurrence { from, to, dist };
    assert_eq!(window_pairs(&slots, 0), vec![]);
    assert_eq!(window_pairs(&slots, 1), vec![pair(2, 4, 1), pair(4, 2, 1)]);
    assert_eq!(window_pairs(&slots, 2),
               vec![pair(4, 2, 2), pair(2, 4, 2), pair(2, 4, 1), pair(4, 2, 1)]);
    assert_eq!(window_pairs(&slots, 3),
               vec![pair(4, 2, 2), pair(4, 4, 3), pair(2, 4, 2), pair(2, 4, 1), pair(4, 4, 3),
                    pair(4, 2, 1)]);
    assert_eq!(window_pairs(&vec![], 3), vec![]);
    assert_eq!(window_pairs(&vec![None, None], 3), vec![]);
}

#[test]
fn every_pair_has_its_mirror() {
    let slots = vec![Some(0), Some(1), None, Some(0), Some(2), Some(1), Some(1), None, Some(0)];
    for radius in 0..10 {
        let pairs = window_pairs(&slots, radius);
        for e in &pairs {
            let mirror = Cooccurrence { from: e.to, to: e.from, dist: e.dist };
            let times = pairs.iter().filter(|x| *x == e).count();
            let mirrored = pairs.iter().filter(|x| **x == mirror).count();
            assert_eq!(times, mirrored);
            assert!(1 <= e.dist && e.dist <= radius);
        }
    }
}

#[test]
fn records_are_written_and_read() {
    let records = vec![WordVec { word: "a".to_string(), vec: vec![1, 2] },
                       WordVec { word: "".to_string(), vec: vec![u32::MAX, 0x3a3a_3a3a] }];
    let bytes = write_model(&records);
    assert_eq!(bytes,
               vec![2, 0, 0, 0, 0, 0, 0, 0, 10, b'a', b':', 1, 0, 0, 0, 2, 0, 0, 0, 10, b':', 255,
                    255, 255, 255, 0x3a, 0x3a, 0x3a, 0x3a, 10]);
    let read = read_model(&bytes).unwrap();
    assert_eq!(read.len(), 2);
    assert_eq!(read[0].word, "a");
    assert_eq!(read[0].vec, vec![1, 2]);
    assert_eq!(read[1].word, "");
    assert_eq!(read[1].vec, vec![u32::MAX, 0x3a3a_3a3a]);
}

#[test]
fn words_that_are_not_well_formed_text_are_format_errors() {
    let file = |word: &[u8]| {
        let mut bytes = vec![1, 0, 0, 0, 0, 0, 0, 0, 10];
        bytes.extend_from_slice(word);
        bytes.extend_from_slice(&[b':', 0, 0, 0, 0, 10]);
        bytes
    };
    assert!(read_model(&file("ok".as_bytes())).is_ok());
    assert!(read_model(&file("é∑𝄞".as_bytes())).is_ok());
    for word in [&[0x80u8][..], &[0xc0, 0x80], &[0xe0, 0x80, 0x80], &[0xed, 0xa0, 0x80],
                 &[0xf4, 0x90, 0x80, 0x80], &[0xf8, 0x88, 0x80, 0x80, 0x80], &[0xc3],
                 &[b'a', 0xff]] {
        assert!(matches!(read_model(&file(word)), Err(Error::FormatError)));
    }
}
