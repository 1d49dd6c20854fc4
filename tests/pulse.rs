use huffman_laser::pulse::{
    classify, decode_pulses, initiation, pulse_schedule, PulseClass, PulseDecoder, Step,
};

#[test]
fn schedule_frames_each_bit() {
    let steps = pulse_schedule(&[1, 0]);
    let expected = vec![
        Step { high: false, micros: 50 },
        Step { high: true, micros: 500 },
        Step { high: false, micros: 50 },
        Step { high: true, micros: 25 },
        Step { high: false, micros: 50 },
        Step { high: true, micros: 10 },
        Step { high: false, micros: 50 },
        Step { high: true, micros: 1000 },
        Step { high: false, micros: 0 },
    ];
    assert_eq!(steps, expected);
}

#[test]
fn schedule_of_no_bits_has_only_markers() {
    assert_eq!(pulse_schedule(&[]).len(), 5);
}

#[test]
fn framed_durations_decode_to_bits() {
    let durations = [500, 50, 25, 50, 10, 50, 17, 18, 37, 1000];
    assert_eq!(decode_pulses(&durations), Some(vec![1, 0, 0, 1, 1]));
}

#[test]
fn noise_before_initiation_and_ambiguous_pulses_are_dropped() {
    let durations = [10, 50, 274, 800, 275, 20, 400, 0, 30, 750, 751, 10];
    assert_eq!(decode_pulses(&durations), Some(vec![1, 1]));
}

#[test]
fn no_termination_means_no_message() {
    assert_eq!(decode_pulses(&[500, 10, 25]), None);
    assert_eq!(decode_pulses(&[10, 25, 5000]), None);
}

#[test]
fn bands() {
    assert_eq!(classify(0), PulseClass::Noise);
    assert_eq!(classify(1), PulseClass::Zero);
    assert_eq!(classify(10), PulseClass::Zero);
    assert_eq!(classify(17), PulseClass::Zero);
    assert_eq!(classify(18), PulseClass::One);
    assert_eq!(classify(25), PulseClass::One);
    assert_eq!(classify(37), PulseClass::One);
    assert_eq!(classify(38), PulseClass::Noise);
    assert_eq!(classify(50), PulseClass::Noise);
    assert_eq!(classify(750), PulseClass::Noise);
    assert_eq!(classify(751), PulseClass::End);
    assert_eq!(classify(1000), PulseClass::End);
    assert!(!initiation(274));
    assert!(initiation(275));
    assert!(initiation(500));
    assert!(initiation(750));
    assert!(!initiation(751));
}

#[test]
fn decoder_stops_at_termination() {
    let mut decoder = PulseDecoder::new();
    assert!(!decoder.feed(500));
    assert!(!decoder.feed(10));
    assert!(decoder.feed(1000));
    assert!(decoder.feed(25));
    assert!(decoder.is_done());
    assert_eq!(decoder.into_bits(), vec![0]);
}

#[test]
fn encoded_message_survives_the_pulse_layer() {
    let mut huff_tree = huffman_laser::huffman_code::HuffTree::new();
    let encoded = huff_tree.encode("pulse".to_string());
    let durations: Vec<u64> = pulse_schedule(&encoded).iter().map(|s| s.micros).collect();
    let received = decode_pulses(&durations).unwrap();
    assert_eq!(received, encoded);
}
