use hamming::bits::BitVector;
use hamming::charset::{from_cp1251_bits, into_cp1251_bits, try_into_cp1251_bits};
use hamming::encoding::{decode_hamming, encode_hamming, DecodeResult};

#[test]
fn cyrillic_letters_have_their_code_page_bytes() {
    let letters = ['л', 'м', 'н', 'о', 'п'];
    let bytes = [0xEBu8, 0xEC, 0xED, 0xEE, 0xEF];
    for (letter, byte) in letters.into_iter().zip(bytes) {
        let bits = try_into_cp1251_bits(letter).unwrap();
        assert_eq!(u8::from(&bits), byte);
        assert_eq!(into_cp1251_bits(letter), bits);
    }
}

#[test]
fn ascii_letters_keep_their_bytes() {
    let bits = try_into_cp1251_bits('w').unwrap();
    assert_eq!(bits.to_string(), "01110111");
    assert_eq!(into_cp1251_bits('A'), BitVector::<8>::from(0x41u8));
}

#[test]
fn letters_outside_the_code_page_give_nothing() {
    assert_eq!(try_into_cp1251_bits('é'), None);
    assert_eq!(try_into_cp1251_bits('漢'), None);
}

#[test]
fn bits_give_back_their_letter() {
    assert_eq!(from_cp1251_bits(&BitVector::<8>::from(0xEBu8)), "л");
    assert_eq!(from_cp1251_bits(&BitVector::<8>::from(0xEFu8)), "п");
    assert_eq!(from_cp1251_bits(&BitVector::<8>::from(0x77u8)), "w");
}

#[test]
fn letter_survives_the_codec() {
    for letter in ['л', 'м', 'н', 'о', 'п'] {
        let bits = into_cp1251_bits(letter);
        match decode_hamming(&encode_hamming(&bits)) {
            DecodeResult::Intact(decoded) => {
                assert_eq!(from_cp1251_bits(&decoded), letter.to_string());
            }
            other => panic!("{:?}", other),
        }
    }
}
