use nicop::codec::{decode, encode, first_pair, DecodeError};

fn pairs_of(units: &[u16]) -> Vec<[u8; 2]> {
    units.iter().map(|unit| unit.to_be_bytes()).collect()
}

#[test]
fn encode_splits_units_high_byte_first() {
    assert_eq!(encode("A"), vec![[0x00, 0x41]]);
    assert_eq!(encode("CAFE"), vec![[0x00, 0x43], [0x00, 0x41], [0x00, 0x46], [0x00, 0x45]]);
    assert_eq!(encode("\u{20ac}"), vec![[0x20, 0xac]]);
}

#[test]
fn encode_of_empty_text_is_empty() {
    assert_eq!(encode(""), Vec::<[u8; 2]>::new());
}

#[test]
fn encode_writes_surrogate_pairs_above_the_basic_plane() {
    assert_eq!(encode("\u{1f600}"), vec![[0xd8, 0x3d], [0xde, 0x00]]);
    assert_eq!(encode("\u{10000}"), vec![[0xd8, 0x00], [0xdc, 0x00]]);
    assert_eq!(encode("\u{10ffff}"), vec![[0xdb, 0xff], [0xdf, 0xff]]);
}

#[test]
fn encode_agrees_with_the_standard_library() {
    for text in ["", "plain", "Caf\u{e9}", "\u{d7ff}\u{e000}\u{ffff}", "a\u{1f600}b\u{10348}"] {
        let units: Vec<u16> = text.encode_utf16().collect();
        assert_eq!(encode(text), pairs_of(&units));
    }
}

#[test]
fn decode_joins_pairs_high_byte_first() {
    assert_eq!(decode(&vec![[0x00, 0x41]]), Ok(String::from("A")));
    assert_eq!(decode(&vec![[0x01, 0x41]]), Ok(String::from("\u{141}")));
    assert_eq!(decode(&vec![[0x20, 0xac], [0x00, 0x21]]), Ok(String::from("\u{20ac}!")));
}

#[test]
fn decode_of_nothing_is_the_empty_text() {
    assert_eq!(decode(&Vec::new()), Ok(String::new()));
}

#[test]
fn decode_joins_surrogate_pairs() {
    assert_eq!(decode(&vec![[0xd8, 0x3d], [0xde, 0x00]]), Ok(String::from("\u{1f600}")));
    assert_eq!(decode(&vec![[0xdb, 0xff], [0xdf, 0xff]]), Ok(String::from("\u{10ffff}")));
}

#[test]
fn decode_reports_an_unpaired_surrogate() {
    assert_eq!(decode(&vec![[0xd8, 0x00]]), Err(DecodeError));
    assert_eq!(decode(&vec![[0xdc, 0x00]]), Err(DecodeError));
    assert_eq!(decode(&vec![[0x00, 0x41], [0xd8, 0x00]]), Err(DecodeError));
}

#[test]
fn decode_reports_a_high_surrogate_not_followed_by_a_low_one() {
    assert_eq!(decode(&vec![[0xd8, 0x00], [0x00, 0x41]]), Err(DecodeError));
    assert_eq!(decode(&vec![[0xd8, 0x00], [0xd8, 0x00]]), Err(DecodeError));
}

#[test]
fn decode_reports_a_low_surrogate_that_comes_first() {
    assert_eq!(decode(&vec![[0xdc, 0x00], [0xd8, 0x00]]), Err(DecodeError));
}

#[test]
fn decode_agrees_with_the_standard_library() {
    let samples: [&[u16]; 7] = [
        &[],
        &[0x41, 0x42],
        &[0xd83d, 0xde00],
        &[0xd800],
        &[0xdfff, 0x41],
        &[0xdbff, 0xdc00, 0xd7ff, 0xe000],
        &[0x41, 0xdbff, 0x42],
    ];
    for units in samples {
        let expected = String::from_utf16(units).ok();
        assert_eq!(decode(&pairs_of(units)).ok(), expected);
    }
}

#[test]
fn decode_gives_back_what_encode_took() {
    for text in ["", "CAFE", "Caf\u{e9}", "\u{1f600} and \u{10348}", "\u{ffff}\u{10000}"] {
        assert_eq!(decode(&encode(text)), Ok(String::from(text)));
    }
}

#[test]
fn first_pair_is_the_first_code_unit() {
    assert_eq!(first_pair('E'), [0x00, 0x45]);
    assert_eq!(first_pair('\u{141}'), [0x01, 0x41]);
    assert_eq!(first_pair('\u{1f600}'), [0xd8, 0x3d]);
}
