use nicop::message::Message;

#[test]
fn from_string_holds_the_text_and_its_code_units() {
    let message = Message::from_string(String::from("CAFE"));
    assert_eq!(message.text(), "CAFE");
    assert_eq!(message.bytes(), &vec![[0x00, 0x43], [0x00, 0x41], [0x00, 0x46], [0x00, 0x45]]);
    assert!(!message.substituted());
}

#[test]
fn from_string_has_one_pair_per_code_unit() {
    for text in ["", "abc", "Caf\u{e9}", "\u{1f600}x"] {
        let message = Message::from_string(String::from(text));
        assert_eq!(message.bytes().len(), text.encode_utf16().count());
    }
}

#[test]
fn from_bytes_decodes_the_text() {
    let message = Message::from_bytes(vec![[0x00, 0x48], [0x00, 0x69]]);
    assert_eq!(message.text(), "Hi");
    assert_eq!(message.bytes(), &vec![[0x00, 0x48], [0x00, 0x69]]);
    assert!(!message.substituted());
}

#[test]
fn from_bytes_reads_the_high_byte() {
    let message = Message::from_bytes(vec![[0x01, 0x41]]);
    assert_eq!(message.text(), "\u{141}");
}

#[test]
fn from_bytes_substitutes_the_empty_text_and_says_so() {
    let message = Message::from_bytes(vec![[0x00, 0x41], [0xd8, 0x00]]);
    assert_eq!(message.text(), "");
    assert_eq!(message.bytes(), &vec![[0x00, 0x41], [0xd8, 0x00]]);
    assert!(message.substituted());
}

#[test]
fn from_bytes_of_nothing_is_the_empty_message() {
    let message = Message::from_bytes(Vec::new());
    assert_eq!(message.text(), "");
    assert!(message.bytes().is_empty());
    assert!(!message.substituted());
}

#[test]
fn into_text_hands_out_the_text() {
    assert_eq!(Message::from_string(String::from("CAFE")).into_text(), "CAFE");
}
