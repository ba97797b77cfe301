//! Key recovery: guessing the key from the most frequent character of each
//! slot, on the assumption that it stands for the letter `E`.

use crate::cipher::{lemma_xor_pair_involution, transformed, xor_pair, xor_stream};
use crate::codec::{
    encoded, first_pair, is_surrogate, leading_pair, lemma_pair_unit_inverse,
    lemma_plain_units_decode, lemma_single_units, pair_of, unit_of, units_of, utf16_units,
};
use crate::frequency::{empty_table, stripe, tabulated, SLOTS};
use crate::history::{
    is_image, leads, lemma_leader_is_most_frequent, lemma_leader_of_image,
    lemma_occurrences_positive, most_frequent, tells_apart,
};
use crate::key::Key;
use crate::message::message_of;
use vstd::prelude::*;

verus! {

/// The letter taken to be the most frequent one of the plain text.
pub const ASSUMED: char = 'E';

/// The key under which `ASSUMED` turns into the character given for each
/// slot: per slot, the first code unit of `ASSUMED` XORed, byte by byte,
/// with the first code unit of that character.
pub open spec fn recovered(most_frequent: Seq<char>) -> Seq<[u8; 2]> {
    Seq::new(SLOTS as nat, |s: int| xor_pair(leading_pair(ASSUMED), leading_pair(most_frequent[s])))
}

/// What the character `c` reads as once its first code unit was XORed with
/// `key`.
pub open spec fn masked(c: char, key: [u8; 2]) -> char {
    unit_of(xor_pair(leading_pair(c), key)) as char
}

/// Two single-unit characters that read the same under one key pair, and
/// not as surrogates, are the same character.
proof fn lemma_masked_tells_apart(a: char, b: char, key: [u8; 2])
    requires
        (a as u32) < 0x10000,
        (b as u32) < 0x10000,
        !is_surrogate(unit_of(xor_pair(leading_pair(a), key))),
        !is_surrogate(unit_of(xor_pair(leading_pair(b), key))),
        masked(a, key) == masked(b, key),
    ensures
        a == b,
{
    let pa = xor_pair(leading_pair(a), key);
    let pb = xor_pair(leading_pair(b), key);
    assert((unit_of(pa) as char) as u32 == unit_of(pa));
    assert((unit_of(pb) as char) as u32 == unit_of(pb));
    lemma_pair_unit_inverse(0, pa);
    lemma_pair_unit_inverse(0, pb);
    assert(pa == pb);
    lemma_xor_pair_involution(leading_pair(a), key);
    lemma_xor_pair_involution(leading_pair(b), key);
    assert(leading_pair(a) == leading_pair(b));
    lemma_pair_unit_inverse((a as u32) as u16, pa);
    lemma_pair_unit_inverse((b as u32) as u16, pa);
    assert((a as u32) as u16 == (b as u32) as u16);
}

/// The attack is exact where its assumption holds. Take a plain text of
/// single-unit characters in which `ASSUMED` leads every slot, and a key
/// under which no code unit of the ciphertext is a surrogate. Then the
/// ciphertext decodes, and the key recovered from the most frequent
/// character of each of its slots is the key it was encrypted with.
pub proof fn law_recovery_exact(plain: Seq<char>, key: Seq<[u8; 2]>)
    requires
        key.len() == SLOTS,
        forall|i: int| 0 <= i < plain.len() ==> ((#[trigger] plain[i]) as u32) < 0x10000,
        forall|i: int|
            0 <= i < plain.len() ==> !is_surrogate(
                #[trigger] units_of(xor_stream(encoded(plain), key))[i],
            ),
        forall|s: int| 0 <= s < SLOTS ==> leads(#[trigger] stripe(plain, s), ASSUMED),
    ensures
        !transformed(message_of(encoded(plain)), key).substituted,
        recovered(
            Seq::new(
                SLOTS as nat,
                |s: int|
                    most_frequent(
                        tabulated(
                            empty_table(),
                            transformed(message_of(encoded(plain)), key).text,
                        )[s],
                    ),
            ),
        ) == key,
{
    let n = plain.len();
    lemma_single_units(plain);
    let plain_bytes = encoded(plain);
    assert(plain_bytes.len() == n);
    assert(message_of(plain_bytes).bytes == plain_bytes);
    let cipher_bytes = xor_stream(plain_bytes, key);
    let cipher_units = units_of(cipher_bytes);
    assert forall|i: int| 0 <= i < cipher_units.len() implies !is_surrogate(
        #[trigger] cipher_units[i],
    ) by {}
    lemma_plain_units_decode(cipher_units);
    let cipher = transformed(message_of(plain_bytes), key);
    let text = cipher.text;
    assert(text == Seq::new(n, |i: int| cipher_units[i] as char));
    assert forall|i: int| 0 <= i < n implies #[trigger] text[i] == masked(plain[i], key[i % 4])
        && cipher_units[i] == unit_of(xor_pair(leading_pair(plain[i]), key[i % 4])) by {
        assert(utf16_units(plain)[i] == (plain[i] as u32) as u16);
        assert(plain_bytes[i] == leading_pair(plain[i]));
        assert(cipher_bytes[i] == xor_pair(plain_bytes[i], key[i % 4]));
    }
    let guessed = Seq::new(
        SLOTS as nat,
        |s: int| most_frequent(tabulated(empty_table(), text)[s]),
    );
    assert forall|s: int| 0 <= s < SLOTS implies #[trigger] recovered(guessed)[s] == key[s] by {
        let h = stripe(plain, s);
        let g = stripe(text, s);
        let f = |c: char| masked(c, key[s]);
        assert(leads(h, ASSUMED));
        assert(h.len() > 0);
        assert(is_image(g, h, f)) by {
            assert forall|j: int| 0 <= j < h.len() implies #[trigger] g[j] == f(h[j]) by {
                assert(text[4 * j + s] == masked(plain[4 * j + s], key[(4 * j + s) % 4]));
            }
        }
        assert(tells_apart(h, f)) by {
            assert forall|i: int, j: int|
                0 <= i < h.len() && 0 <= j < h.len() && f(#[trigger] h[i]) == f(
                    #[trigger] h[j],
                ) implies h[i] == h[j] by {
                assert(!is_surrogate(cipher_units[4 * i + s]));
                assert(!is_surrogate(cipher_units[4 * j + s]));
                lemma_masked_tells_apart(plain[4 * i + s], plain[4 * j + s], key[s]);
            }
        }
        lemma_leader_of_image(h, g, f, ASSUMED);
        lemma_leader_is_most_frequent(g, masked(ASSUMED, key[s]));
        assert(tabulated(empty_table(), text)[s] =~= g);
        assert(guessed[s] == masked(ASSUMED, key[s]));
        lemma_occurrences_positive(h, ASSUMED);
        let at = choose|k: int| 0 <= k < h.len() && h[k] == ASSUMED;
        let unit = unit_of(xor_pair(leading_pair(ASSUMED), key[s]));
        assert(cipher_units[4 * at + s] == unit);
        assert(!is_surrogate(unit));
        assert((unit as char) as u32 == unit);
        assert(leading_pair(masked(ASSUMED, key[s])) == pair_of(unit));
        lemma_pair_unit_inverse(0, xor_pair(leading_pair(ASSUMED), key[s]));
        lemma_xor_pair_involution(leading_pair(ASSUMED), key[s]);
    }
    assert(recovered(guessed) =~= key);
}

/// The key that turns `ASSUMED` into the most frequent character of each
/// slot. It is the real key where `ASSUMED` is the most frequent character
/// of the plain text in every slot, and a wrong one elsewhere.
pub fn recover(most_frequent: &Vec<char>) -> (key: Key)
    requires
        most_frequent@.len() == SLOTS,
    ensures
        key@ == recovered(most_frequent@),
{
    let assumed: [u8; 2] = first_pair(ASSUMED);
    let mut bytes: [[u8; 2]; 4] = [[0u8; 2]; 4];
    let mut i: usize = 0;
    while i < SLOTS
        invariant
            i <= SLOTS,
            most_frequent@.len() == SLOTS,
            assumed == leading_pair(ASSUMED),
            forall|s: int|
                0 <= s < i ==> #[trigger] bytes@[s] == xor_pair(
                    leading_pair(ASSUMED),
                    leading_pair(most_frequent@[s]),
                ),
        decreases SLOTS - i,
    {
        let seen: [u8; 2] = first_pair(most_frequent[i]);
        let block: [u8; 2] = [assumed[0] ^ seen[0], assumed[1] ^ seen[1]];
        proof {
            assert(block =~= xor_pair(assumed, seen));
        }
        bytes[i] = block;
        i += 1;
    }
    proof {
        assert(bytes@ =~= recovered(most_frequent@));
    }
    Key::from_bytes(bytes)
}

} // verus!
