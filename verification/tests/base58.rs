use crank::base58::decode_key;

#[test]
fn all_ones_is_the_zero_key() {
    // 32 leading `1`s stand for 32 zero bytes and no value digits.
    let text = "1".repeat(32);
    let key = decode_key(&text).expect("names a key");
    assert_eq!(key, vec![0u8; 32]);
}

#[test]
fn thirty_one_ones_and_a_two() {
    // value 1 behind 31 zero bytes
    let text = format!("{}2", "1".repeat(31));
    let key = decode_key(&text).expect("names a key");
    let mut expected = vec![0u8; 31];
    expected.push(1);
    assert_eq!(key, expected);
}

#[test]
fn two_value_digits_one_value_byte() {
    // "21" spells 1 * 58 + 0 == 58, one byte, behind 31 zero bytes
    let text = format!("{}21", "1".repeat(31));
    let key = decode_key(&text).expect("names a key");
    let mut expected = vec![0u8; 31];
    expected.push(58);
    assert_eq!(key, expected);
}

#[test]
fn value_crossing_a_byte_boundary() {
    // "5R" spells 4 * 58 + 24 == 256, two bytes, behind 30 zero bytes
    let text = format!("{}5R", "1".repeat(30));
    let key = decode_key(&text).expect("names a key");
    let mut expected = vec![0u8; 30];
    expected.push(1);
    expected.push(0);
    assert_eq!(key, expected);
}

#[test]
fn highest_digit() {
    // 'z' is digit 57
    let text = format!("{}z", "1".repeat(31));
    let key = decode_key(&text).expect("names a key");
    let mut expected = vec![0u8; 31];
    expected.push(57);
    assert_eq!(key, expected);
}

#[test]
fn empty_text_names_no_key() {
    assert!(decode_key("").is_none());
}

#[test]
fn too_few_ones_name_no_key() {
    let text = "1".repeat(31);
    assert!(decode_key(&text).is_none());
}

#[test]
fn too_many_ones_name_no_key() {
    let text = "1".repeat(33);
    assert!(decode_key(&text).is_none());
}

#[test]
fn characters_outside_the_alphabet_are_refused() {
    // '0', 'I', 'O' and 'l' are not base-58 digits
    for bad in ["0", "I", "O", "l", "+", "/", " "] {
        let text = format!("{}{}", "1".repeat(31), bad);
        assert!(decode_key(&text).is_none(), "accepted {:?}", bad);
    }
}

#[test]
fn oversized_value_is_refused() {
    // 44 `z`s spell a value past 32 bytes
    let text = "z".repeat(44);
    assert!(decode_key(&text).is_none());
}

#[test]
fn decode_is_stable_across_calls() {
    let text = format!("{}5R", "1".repeat(30));
    assert_eq!(decode_key(&text), decode_key(&text));
}
