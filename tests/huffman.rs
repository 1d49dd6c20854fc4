use huffman_laser::checksum::Fidelity;
use huffman_laser::huffman_code::{Decoded, HuffTree};
use std::collections::HashMap;

const TEXT: &str = "It was the best of times, it was the worst of times, it was the age of \
wisdom, it was the age of foolishness, it was the epoch of belief, it was the epoch of \
incredulity, it was the season of Light, it was the season of Darkness.\n";

fn codes_of(message: &str) -> Vec<(char, Vec<u32>)> {
    let huff_tree = HuffTree::new();
    let frequency_map = huff_tree.create_frequency_map(&message.to_string());
    let root = huff_tree.build_tree(frequency_map);
    let mut table = Vec::new();
    huff_tree.assign_codes(&root, &mut table, Vec::new());
    table
}

fn is_prefix(a: &[u32], b: &[u32]) -> bool {
    a.len() <= b.len() && a == &b[..a.len()]
}

fn assert_validated(decoded: Decoded, expected: &str) {
    match decoded {
        Decoded::Validated { message, fidelity } => {
            assert_eq!(message, expected);
            assert_eq!(fidelity.sum, fidelity.check);
        }
        _ => panic!("stream was not validated"),
    }
}

#[test]
fn test_encode_decode() {
    let message = TEXT.to_string();
    let mut huff_tree = HuffTree::new();
    let encoded_message = huff_tree.encode(message.clone());
    assert!(message.len() * 8 > encoded_message.len());
    let (valid, fidelity) = huff_tree.validate(&encoded_message);
    assert_eq!(valid, true);
    assert_eq!(fidelity.sum, fidelity.check);
    assert_validated(huff_tree.decode(&encoded_message), &message);
}

#[test]
fn test_create_frequency_map() {
    let message = "abbccc".to_string();
    let mut huff_tree = HuffTree::new();
    huff_tree.encode(message.clone());
    let expected = HashMap::from([('a', 1), ('b', 2), ('c', 3)]);
    let counted: HashMap<char, u64> = huff_tree.create_frequency_map(&message).into_iter().collect();
    assert_eq!(counted, expected)
}

#[test]
fn frequency_map_of_empty_message_is_empty() {
    let huff_tree = HuffTree::new();
    assert!(huff_tree.create_frequency_map(&String::new()).is_empty());
}

#[test]
fn round_trip_of_several_messages() {
    for text in ["abbccc", "ab", "hello, world", "zzzzzzzzzy", "\u{e9}t\u{e9} \u{2603}\u{2603}", TEXT] {
        let mut huff_tree = HuffTree::new();
        let encoded = huff_tree.encode(text.to_string());
        assert_validated(huff_tree.decode(&encoded), text);
    }
}

#[test]
fn skewed_message_compresses() {
    let message = "aaaaaaaaaaaaaaaaaaaaaaaaaaaaaaaaaaaaaaaabbbbbbbbbbccccdde".to_string();
    let mut huff_tree = HuffTree::new();
    let encoded = huff_tree.encode(message.clone());
    assert!(encoded.len() < 8 * message.len());
}

#[test]
fn code_table_is_prefix_free() {
    for text in ["abbccc", "ab", TEXT, "aaaabbbcccddddddeeeeeeeeeeefg"] {
        let table = codes_of(text);
        for (i, (_, a)) in table.iter().enumerate() {
            for (j, (_, b)) in table.iter().enumerate() {
                if i != j {
                    assert!(!is_prefix(a, b), "{text}: code {i} is a prefix of code {j}");
                }
            }
        }
    }
}

#[test]
fn example_abbccc_codes() {
    let table = codes_of("abbccc");
    assert_eq!(table.len(), 3);
    let code = |c: char| table.iter().find(|e| e.0 == c).unwrap().1.clone();
    assert_eq!(code('c'), vec![0]);
    assert_eq!(code('a'), vec![1, 0]);
    assert_eq!(code('b'), vec![1, 1]);
    let mut huff_tree = HuffTree::new();
    let encoded = huff_tree.encode("abbccc".to_string());
    // 9 payload bits, 7 padding bits, 32 checksum bits
    assert_eq!(encoded.len(), 48);
    assert_eq!(&encoded[..9], &[1, 0, 1, 1, 1, 1, 0, 0, 0]);
    assert_validated(huff_tree.decode(&encoded), "abbccc");
}

#[test]
fn single_symbol_message_round_trips() {
    let mut huff_tree = HuffTree::new();
    let encoded = huff_tree.encode("aaaa".to_string());
    let mut expected = vec![0u32; 8];
    expected.extend(vec![0u32; 32]);
    assert_eq!(encoded, expected);
    let (valid, fidelity) = huff_tree.validate(&encoded);
    assert!(valid);
    assert_eq!(fidelity, Fidelity { sum: 0, check: 0 });
    assert_validated(huff_tree.decode(&encoded), "aaaa");
}

#[test]
fn byte_aligned_payload_gets_a_full_padding_byte() {
    // "ab" codes to two bits; "abababab" to eight, which is already a whole byte.
    let mut huff_tree = HuffTree::new();
    let encoded = huff_tree.encode("abababab".to_string());
    assert_eq!(encoded.len(), 8 + 8 + 32);
    assert!(encoded[8..16].iter().all(|b| *b == 0));
    assert_validated(huff_tree.decode(&encoded), "abababab");
}

#[test]
fn checksum_bits_are_least_significant_first() {
    // "abbccc" pays 1,0,1,1,1,1,0,0 | 0: weights 1+4+8+16+32 = 61, then 0.
    let mut huff_tree = HuffTree::new();
    let encoded = huff_tree.encode("abbccc".to_string());
    let check = &encoded[16..];
    let mut expected = vec![0u32; 32];
    for (i, bit) in expected.iter_mut().enumerate() {
        *bit = (61u32 >> i) & 1;
    }
    assert_eq!(check, &expected[..]);
    assert_eq!(huff_tree.validate(&encoded).1, Fidelity { sum: 61, check: 61 });
}

#[test]
fn validate_rejects_short_streams() {
    let huff_tree = HuffTree::new();
    for n in [0usize, 1, 8, 32, 39] {
        let data = vec![1u32; n];
        assert_eq!(huff_tree.validate(&data), (false, Fidelity { sum: 0, check: 0 }));
    }
}

#[test]
fn flipped_bits_fail_validation() {
    let mut huff_tree = HuffTree::new();
    let mut encoded = huff_tree.encode(TEXT.to_string());
    let payload_end = encoded.len() - 32;
    let mut k = 0;
    while k < payload_end {
        encoded[k] = 1 - encoded[k];
        k += 7;
    }
    let (valid, fidelity) = huff_tree.validate(&encoded);
    assert!(!valid);
    assert!(matches!(huff_tree.decode(&encoded), Decoded::Invalid { fidelity: f } if f == fidelity));
}

#[test]
fn tolerance_threshold() {
    assert!(Fidelity { sum: 1000, check: 996 }.is_tolerable());
    assert!(!Fidelity { sum: 1000, check: 994 }.is_tolerable());
    assert!(!Fidelity { sum: 994, check: 1000 }.is_tolerable());
    assert!(!Fidelity { sum: 0, check: 1 }.is_tolerable());
    assert!(Fidelity { sum: 0, check: 0 }.is_tolerable());
    assert!(Fidelity { sum: 7, check: 7 }.is_lossless());
    assert!(!Fidelity { sum: 7, check: 8 }.is_lossless());
}

#[test]
fn payload_ending_inside_a_code_is_unframed() {
    let mut huff_tree = HuffTree::new();
    huff_tree.encode("abbccc".to_string());
    // One payload bit (the start of the code of 'a' or 'b'), 7 padding bits, checksum 1.
    let mut data = vec![1u32, 0, 0, 0, 0, 0, 0, 0, 1];
    data.extend(vec![0u32; 31]);
    assert!(matches!(
        huff_tree.decode(&data),
        Decoded::Unframed { fidelity: Fidelity { sum: 1, check: 1 } }
    ));
    assert_eq!(huff_tree.decode_string(&[1]), None);
    assert_eq!(huff_tree.decode_string(&[1, 0, 0]), Some("ac".to_string()));
}

#[test]
fn fresh_session_reports_invalid_streams_and_has_no_tree() {
    let huff_tree = HuffTree::new();
    assert!(matches!(
        huff_tree.decode(&[]),
        Decoded::Invalid { fidelity: Fidelity { sum: 0, check: 0 } }
    ));
    let data = vec![0u32; 40];
    assert!(matches!(
        huff_tree.decode(&data),
        Decoded::NoTree { fidelity: Fidelity { sum: 0, check: 0 } }
    ));
}

#[test]
fn exact_stream_without_ties() {
    let mut huff_tree = HuffTree::new();
    let encoded = huff_tree.encode("aaaaaaab".to_string());
    let mut expected = vec![1u32, 1, 1, 1, 1, 1, 1, 0];
    expected.extend(vec![0u32; 8]);
    expected.extend(vec![1u32; 7]);
    expected.extend(vec![0u32; 25]);
    assert_eq!(encoded, expected);
    assert!(encoded.len() < 8 * 8);
    assert_validated(huff_tree.decode(&encoded), "aaaaaaab");
}

#[test]
fn one_flipped_heavy_bit_is_reported() {
    let mut huff_tree = HuffTree::new();
    let mut encoded = huff_tree.encode("aaaaaaab".to_string());
    encoded[6] = 0;
    assert_eq!(huff_tree.validate(&encoded), (false, Fidelity { sum: 63, check: 127 }));
    assert!(matches!(
        huff_tree.decode(&encoded),
        Decoded::Invalid { fidelity: Fidelity { sum: 63, check: 127 } }
    ));
    let loss = 1.0 - 63.0_f64 / 127.0;
    assert!((loss * 100.0 - 50.3937).abs() < 1e-4);
}

#[test]
fn reordered_message_gives_same_length() {
    let mut t1 = HuffTree::new();
    let mut t2 = HuffTree::new();
    let a = t1.encode("abracadabra".to_string());
    let b = t2.encode("aaaaabbrrcd".to_string());
    assert_eq!(a.len(), b.len());
}
