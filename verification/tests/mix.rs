use taocp::mix::{
    byte, byte_from_sample, doublebyte_value, get_bit_at_index, random_byte, MixByte, MixSign,
    MixWord,
};

#[test]
fn doublebyte_is_big_endian() {
    let zero = MixByte { bits: 0 };
    let one = MixByte { bits: 1 };
    assert_eq!(doublebyte_value(&zero, &one), 1);
    assert_eq!(doublebyte_value(&zero, &zero), 0);
    assert_eq!(doublebyte_value(&one, &zero), 64);
    let max = byte(63);
    assert_eq!(doublebyte_value(&max, &max), 4095);
    assert_eq!(doublebyte_value(&byte(2), &byte(5)), 133);
}

#[test]
fn doublebyte_of_oversized_bits_shifts_and_ors() {
    let wide = MixByte { bits: 255 };
    assert_eq!(doublebyte_value(&wide, &MixByte { bits: 0 }), 16320);
    assert_eq!(doublebyte_value(&MixByte { bits: 1 }, &MixByte { bits: 64 }), 64);
    assert_eq!(doublebyte_value(&wide, &wide), 16383);
}

#[test]
fn bits_are_counted_from_the_high_end() {
    let b = byte(0b100110);
    let bits: Vec<u8> = (0..6).map(|index| get_bit_at_index(&b, index)).collect();
    assert_eq!(bits, vec![1, 0, 0, 1, 1, 0]);
    assert_eq!(get_bit_at_index(&byte(1), 5), 1);
    assert_eq!(get_bit_at_index(&byte(1), 0), 0);
    assert_eq!(get_bit_at_index(&byte(32), 0), 1);
    assert_eq!(get_bit_at_index(&byte(32), 5), 0);
}

#[test]
fn bits_of_every_byte_give_its_value() {
    for value in 0..=63u8 {
        let b = byte(value);
        let mut total = 0u8;
        for index in 0..6 {
            let bit = get_bit_at_index(&b, index);
            assert!(bit <= 1);
            total = total * 2 + bit;
        }
        assert_eq!(total, value);
    }
}

#[test]
fn byte_keeps_its_value() {
    assert_eq!(byte(0).bits, 0);
    assert_eq!(byte(42).bits, 42);
    assert_eq!(byte(63).bits, 63);
}

#[test]
fn sample_is_reduced_modulo_63() {
    assert_eq!(byte_from_sample(0).bits, 0);
    assert_eq!(byte_from_sample(62).bits, 62);
    assert_eq!(byte_from_sample(63).bits, 0);
    assert_eq!(byte_from_sample(64).bits, 1);
    assert_eq!(byte_from_sample(255).bits, 3);
}

#[test]
fn random_bytes_stay_below_63() {
    for _ in 0..1000 {
        assert!(random_byte().bits < 63);
    }
}

#[test]
fn random_bytes_are_not_all_the_same() {
    let first = random_byte().bits;
    let mut differs = false;
    for _ in 0..1000 {
        if random_byte().bits != first {
            differs = true;
        }
    }
    assert!(differs);
}

#[test]
fn word_holds_five_bytes_and_a_sign() {
    let word = MixWord {
        bytes: [byte(1), byte(2), byte(3), byte(4), byte(5)],
        sign: MixSign::MINUS,
    };
    assert_eq!(doublebyte_value(&word.bytes[3], &word.bytes[4]), 261);
    assert!(matches!(word.sign, MixSign::MINUS));
    assert!(!matches!(word.sign, MixSign::PLUS));
}
