//! The key: four byte pairs, one per slot, used in rotation.

use crate::chars::string_of;
use crate::frequency::SLOTS;
use rand::rngs::StdRng;
use rand::Rng;
use vstd::prelude::*;

verus! {

/// The generator of `rand` that keys are drawn from. Nothing is known of
/// its state.
#[verifier::external_type_specification]
#[verifier::external_body]
pub struct ExStdRng(StdRng);

/// A key of four byte pairs. The pair in slot `s` is applied to the code
/// units at the positions `s`, `s + 4`, `s + 8`, and so on.
#[derive(Debug, Clone, Copy, PartialEq, Eq)]
pub struct Key {
    pub bytes: [[u8; 2]; 4],
}

impl View for Key {
    type V = Seq<[u8; 2]>;

    /// The four byte pairs, in slot order.
    open spec fn view(&self) -> Seq<[u8; 2]> {
        self.bytes@
    }
}

/// The binary numeral of `byte`, eight digits wide: digit `i` is bit
/// `7 - i` of the byte.
pub open spec fn binary_digits(byte: u8) -> Seq<char> {
    Seq::new(
        8,
        |i: int|
            if (byte >> ((7 - i) as u8)) & 1 == 1 {
                '1'
            } else {
                '0'
            },
    )
}

/// The line that shows one byte pair: the two bytes in binary, a space
/// between them.
pub open spec fn rendered(pair: [u8; 2]) -> Seq<char> {
    binary_digits(pair[0]) + seq![' '] + binary_digits(pair[1])
}

/// Draws two bytes from `rng`.
///
/// Trusted: calls `Rng::gen::<[u8; 2]>` of `rand` on the generator. The
/// bytes are random, so nothing is claimed of them.
#[verifier::external_body]
fn draw_block(rng: &mut StdRng) -> (block: [u8; 2]) {
    rng.gen::<[u8; 2]>()
}

/// Appends the eight binary digits of `byte` to `line`.
fn push_binary(line: &mut Vec<char>, byte: u8)
    ensures
        final(line)@ == old(line)@ + binary_digits(byte),
{
    let mut i: u8 = 0;
    while i < 8
        invariant
            i <= 8,
            line@ == old(line)@ + binary_digits(byte).take(i as int),
        decreases 8 - i,
    {
        let bit: u8 = (byte >> (7 - i)) & 1;
        line.push(if bit == 1 { '1' } else { '0' });
        proof {
            assert(binary_digits(byte).take(i + 1) =~= binary_digits(byte).take(i as int).push(
                binary_digits(byte)[i as int],
            ));
        }
        i += 1;
    }
    proof {
        assert(binary_digits(byte).take(8) =~= binary_digits(byte));
    }
}

impl Key {
    /// A key whose four byte pairs are drawn from `rng`, slot by slot.
    pub fn generate(rng: &mut StdRng) -> (key: Key)
        ensures
            key@.len() == SLOTS,
    {
        let mut bytes: [[u8; 2]; 4] = [[0u8; 2]; 4];
        let mut i: usize = 0;
        while i < SLOTS
            invariant
                i <= SLOTS,
            decreases SLOTS - i,
        {
            bytes[i] = draw_block(rng);
            i += 1;
        }
        Key { bytes }
    }

    /// The key made of `bytes`, as they are.
    pub fn from_bytes(bytes: [[u8; 2]; 4]) -> (key: Key)
        ensures
            key.bytes == bytes,
            key@ == bytes@,
    {
        Key { bytes }
    }

    /// One line per slot, in slot order: the two bytes of the slot as
    /// eight binary digits each, with a space between them.
    pub fn render(&self) -> (lines: Vec<String>)
        ensures
            lines@.len() == SLOTS,
            forall|s: int| 0 <= s < SLOTS ==> (#[trigger] lines@[s])@ == rendered(self@[s]),
    {
        let mut lines: Vec<String> = Vec::new();
        let mut i: usize = 0;
        while i < SLOTS
            invariant
                i <= SLOTS,
                lines@.len() == i,
                forall|s: int| 0 <= s < i ==> (#[trigger] lines@[s])@ == rendered(self@[s]),
            decreases SLOTS - i,
        {
            let mut line: Vec<char> = Vec::new();
            push_binary(&mut line, self.bytes[i][0]);
            line.push(' ');
            push_binary(&mut line, self.bytes[i][1]);
            proof {
                assert(line@ =~= rendered(self@[i as int]));
            }
            lines.push(string_of(&line));
            i += 1;
        }
        lines
    }
}

} // verus!
