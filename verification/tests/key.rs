use nicop::key::Key;
use rand::rngs::StdRng;
use rand::SeedableRng;

#[test]
fn from_bytes_keeps_the_blocks() {
    let blocks = [[0x01, 0x02], [0x03, 0x04], [0x05, 0x06], [0x07, 0x08]];
    assert_eq!(Key::from_bytes(blocks).bytes, blocks);
}

#[test]
fn render_shows_each_slot_in_binary() {
    let key = Key::from_bytes([[0x01, 0x02], [0x03, 0x04], [0x05, 0x06], [0x07, 0x08]]);
    assert_eq!(
        key.render(),
        vec![
            String::from("00000001 00000010"),
            String::from("00000011 00000100"),
            String::from("00000101 00000110"),
            String::from("00000111 00001000"),
        ]
    );
}

#[test]
fn render_pads_with_zeros_and_fills_all_eight_digits() {
    let key = Key::from_bytes([[0x00, 0xff], [0x80, 0x7f], [0xaa, 0x55], [0x10, 0x01]]);
    assert_eq!(
        key.render(),
        vec![
            String::from("00000000 11111111"),
            String::from("10000000 01111111"),
            String::from("10101010 01010101"),
            String::from("00010000 00000001"),
        ]
    );
}

#[test]
fn generate_is_decided_by_the_generator() {
    let first = Key::generate(&mut StdRng::seed_from_u64(2024));
    let second = Key::generate(&mut StdRng::seed_from_u64(2024));
    assert_eq!(first, second);
}

#[test]
fn generate_draws_every_slot_afresh() {
    let mut rng = StdRng::seed_from_u64(7);
    let first = Key::generate(&mut rng);
    let second = Key::generate(&mut rng);
    assert_ne!(first, second);
    assert_ne!(first.bytes, [[first.bytes[0][0], first.bytes[0][1]]; 4]);
}
