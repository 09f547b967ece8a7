use maze_generator::rle::{decoding, encoding, is_expandable, try_decoding};

#[test]
fn encoding_test() {
    let message = "wwwwddr";
    println!("Message: {message}");
    let result = encoding(message);
    println!("Encoded Message: {result}");
    assert_eq!(result, "4w2d1r");
}

#[test]
fn decoding_test() {
    let encoded_message = "4w2d2r";
    println!("Encoded Message:: {encoded_message}");
    let result = decoding(encoded_message);
    println!("Decoded Message: {result}");
    assert_eq!(result, "wwwwddrr");
}

#[test]
fn encoding_empty_and_long_runs() {
    assert_eq!(encoding(""), "");
    assert_eq!(encoding("aaaaaaaaaaaab"), "12a1b");
    assert_eq!(encoding("abab"), "1a1b1a1b");
}

#[test]
fn decoding_multi_digit_counts() {
    assert_eq!(decoding("12a1b"), "aaaaaaaaaaaab");
    assert_eq!(decoding("0x3y"), "yyy");
    assert_eq!(decoding(""), "");
}

#[test]
fn round_trip_of_runs() {
    let text = "zzzzzzzzzzzzzzzzzzzzqqq!";
    assert_eq!(decoding(&encoding(text)), text);
}

#[test]
fn malformed_codes_are_refused() {
    assert!(!is_expandable("a"));
    assert!(!is_expandable("99999999999999999999999a"));
    assert_eq!(try_decoding("x"), None);
    assert_eq!(try_decoding("2x"), Some("xx".to_string()));
    assert!(is_expandable("3a1b"));
}

#[test]
fn other_numeric_characters_are_not_counts() {
    assert!(!is_expandable("3\u{bd}a"));
    assert_eq!(try_decoding("3\u{bd}a"), None);
    assert_eq!(try_decoding("2\u{e9}"), Some("\u{e9}\u{e9}".to_string()));
}
