use nicop::cipher::{decrypt, encrypt};
use nicop::frequency::{analyze_chars_frequencies, FreqTable};
use nicop::key::Key;
use nicop::message::Message;
use nicop::normalizer::format_contents;
use nicop::recovery::{recover, ASSUMED};

#[test]
fn the_assumed_letter_is_e() {
    assert_eq!(ASSUMED, 'E');
}

#[test]
fn recover_xors_each_character_with_e() {
    let key = recover(&vec!['A', 'B', 'C', 'D']);
    assert_eq!(key.bytes, [[0x00, 0x04], [0x00, 0x07], [0x00, 0x06], [0x00, 0x01]]);
}

#[test]
fn recover_of_e_itself_is_the_zero_key() {
    assert_eq!(recover(&vec!['E'; 4]).bytes, [[0x00, 0x00]; 4]);
}

#[test]
fn recover_uses_both_bytes_of_the_code_unit() {
    let key = recover(&vec!['\u{141}', '\u{345}', '\u{540}', '\u{74d}']);
    assert_eq!(key.bytes, [[0x01, 0x04], [0x03, 0x00], [0x05, 0x05], [0x07, 0x08]]);
}

#[test]
fn recover_uses_the_first_code_unit_of_a_pair() {
    let key = recover(&vec!['\u{1f600}', ' ', ' ', ' ']);
    assert_eq!(key.bytes, [[0xd8, 0x78], [0x00, 0x65], [0x00, 0x65], [0x00, 0x65]]);
}

#[test]
fn recovery_is_exact_on_a_text_of_es() {
    let key = Key::from_bytes([[0x01, 0x02], [0x03, 0x04], [0x05, 0x06], [0x07, 0x08]]);
    let cipher = encrypt(&Message::from_string(String::from("EEEEEEEE")), &key);
    assert!(!cipher.substituted());
    let most_frequent = analyze_chars_frequencies(FreqTable::new(), cipher.text());
    assert_eq!(most_frequent, vec!['\u{147}', '\u{341}', '\u{543}', '\u{74d}']);
    assert_eq!(recover(&most_frequent), key);
}

#[test]
fn the_whole_attack_reads_a_text_where_e_leads_every_slot() {
    let plain = format_contents(String::from(
        "Eve sees three eels; Eve frees these eels, then Eve flees the eerie creek!",
    ));
    let key = Key::from_bytes([[0x12, 0x34], [0x0a, 0xbc], [0x00, 0x01], [0x7f, 0xff]]);
    let cipher = encrypt(&Message::from_string(plain.clone()), &key).into_text();
    let guess = recover(&analyze_chars_frequencies(FreqTable::new(), &cipher));
    assert_eq!(guess, key);
    assert_eq!(decrypt(&Message::from_string(cipher), &guess).into_text(), plain);
}

#[test]
fn a_text_without_e_recovers_a_wrong_key() {
    let key = Key::from_bytes([[0x01, 0x02], [0x03, 0x04], [0x05, 0x06], [0x07, 0x08]]);
    let cipher = encrypt(&Message::from_string(String::from("AAAAAAAA")), &key).into_text();
    let guess = recover(&analyze_chars_frequencies(FreqTable::new(), &cipher));
    assert_ne!(guess, key);
    assert_eq!(decrypt(&Message::from_string(cipher), &guess).into_text(), "EEEEEEEE");
}
