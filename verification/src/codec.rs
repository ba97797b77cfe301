//! Text as UTF-16 code units, each stored as a big-endian pair of bytes.

use crate::chars::{chars_of, string_of};
use vstd::prelude::*;

verus! {

/// A code-unit sequence that is not valid UTF-16: it holds a surrogate that
/// is not part of a pair.
#[derive(Debug, Clone, Copy, PartialEq, Eq)]
pub struct DecodeError;

/// `unit` lies in the range reserved for surrogates.
pub open spec fn is_surrogate(unit: u16) -> bool {
    0xD800 <= unit <= 0xDFFF
}

/// `unit` opens a surrogate pair.
pub open spec fn is_high_surrogate(unit: u16) -> bool {
    0xD800 <= unit <= 0xDBFF
}

/// `unit` closes a surrogate pair.
pub open spec fn is_low_surrogate(unit: u16) -> bool {
    0xDC00 <= unit <= 0xDFFF
}

/// `code` is a Unicode scalar value, the number of some character.
pub open spec fn is_scalar(code: u32) -> bool {
    code < 0xD800 || 0xDFFF < code <= 0x10FFFF
}

/// The code unit that `pair` stores, high byte first.
pub open spec fn unit_of(pair: [u8; 2]) -> u16 {
    (pair[0] * 256 + pair[1]) as u16
}

/// The pair of bytes that stores `unit`, high byte first.
pub open spec fn pair_of(unit: u16) -> [u8; 2] {
    [(unit / 256) as u8, (unit % 256) as u8]
}

/// The code units that `pairs` store.
pub open spec fn units_of(pairs: Seq<[u8; 2]>) -> Seq<u16> {
    Seq::new(pairs.len(), |i: int| unit_of(pairs[i]))
}

/// The byte pairs that store `units`.
pub open spec fn pairs_of(units: Seq<u16>) -> Seq<[u8; 2]> {
    Seq::new(units.len(), |i: int| pair_of(units[i]))
}

/// The UTF-16 code units of one character: itself below `0x10000`, a
/// surrogate pair from there on.
pub open spec fn char_units(c: char) -> Seq<u16> {
    let code = c as u32;
    if code < 0x10000 {
        seq![code as u16]
    } else {
        seq![(0xD800 + (code - 0x10000) / 0x400) as u16, (0xDC00 + (code - 0x10000) % 0x400) as u16]
    }
}

/// The byte pair that stores the first code unit of `c`.
pub open spec fn leading_pair(c: char) -> [u8; 2] {
    pair_of(char_units(c)[0])
}

/// The character that the surrogate pair `high`, `low` stands for.
pub open spec fn paired(high: u16, low: u16) -> char {
    (0x10000 + (high - 0xD800) * 0x400 + (low - 0xDC00)) as char
}

/// The UTF-16 code units of `text`.
pub open spec fn utf16_units(text: Seq<char>) -> Seq<u16>
    decreases text.len(),
{
    if text.len() == 0 {
        Seq::empty()
    } else {
        utf16_units(text.drop_last()) + char_units(text.last())
    }
}

/// `text` put in front of what `rest` holds, if it holds anything.
pub open spec fn preceded(text: Seq<char>, rest: Option<Seq<char>>) -> Option<Seq<char>> {
    match rest {
        Some(tail) => Some(text + tail),
        None => None,
    }
}

/// The text that `units` encode in UTF-16, or `None` where a surrogate
/// stands outside a pair.
pub open spec fn utf16_text(units: Seq<u16>) -> Option<Seq<char>>
    decreases units.len(),
{
    if units.len() == 0 {
        Some(Seq::empty())
    } else if !is_surrogate(units[0]) {
        preceded(seq![units[0] as char], utf16_text(units.skip(1)))
    } else if is_high_surrogate(units[0]) && units.len() >= 2 && is_low_surrogate(units[1]) {
        preceded(seq![paired(units[0], units[1])], utf16_text(units.skip(2)))
    } else {
        None
    }
}

/// The byte pairs that store `text` in UTF-16.
pub open spec fn encoded(text: Seq<char>) -> Seq<[u8; 2]> {
    pairs_of(utf16_units(text))
}

/// The text that `pairs` store in UTF-16, if they store any.
pub open spec fn decoded(pairs: Seq<[u8; 2]>) -> Option<Seq<char>> {
    utf16_text(units_of(pairs))
}

/// The standard library's `char::from_u32` yields the character numbered
/// `i` when `i` is a scalar value, and `None` otherwise.
pub assume_specification[ char::from_u32 ](i: u32) -> (c: Option<char>)
    ensures
        c == if is_scalar(i) {
            Some(i as char)
        } else {
            None::<char>
        },
;

/// Splits a code unit into its two bytes, high byte first.
fn split(unit: u16) -> (pair: [u8; 2])
    ensures
        pair == pair_of(unit),
{
    let high: u8 = (unit >> 8) as u8;
    let low: u8 = (unit & 0xff) as u8;
    assert(unit >> 8 == unit / 256 && unit & 0xff == unit % 256) by (bit_vector);
    let pair: [u8; 2] = [high, low];
    assert(pair =~= pair_of(unit));
    pair
}

/// Joins two bytes into the code unit they store, high byte first.
fn join(pair: &[u8; 2]) -> (unit: u16)
    ensures
        unit == unit_of(*pair),
{
    let high: u16 = pair[0] as u16;
    let low: u16 = pair[1] as u16;
    assert(high <= 0xff && low <= 0xff ==> (high << 8) | low == high * 256 + low) by (bit_vector);
    (high << 8) | low
}

/// The first UTF-16 code unit of `c`, as a big-endian pair of bytes.
pub fn first_pair(c: char) -> (pair: [u8; 2])
    ensures
        pair == leading_pair(c),
{
    let code: u32 = c as u32;
    if code < 0x10000 {
        split(code as u16)
    } else {
        split((0xD800 + (code - 0x10000) / 0x400) as u16)
    }
}

/// The UTF-16 code units of `text`, in order, each as a big-endian pair of
/// bytes.
pub fn encode(text: &str) -> (pairs: Vec<[u8; 2]>)
    ensures
        pairs@ == encoded(text@),
{
    let chars: Vec<char> = chars_of(text);
    let mut pairs: Vec<[u8; 2]> = Vec::new();
    let mut i: usize = 0;
    proof {
        assert(encoded(text@.take(0)) =~= pairs@);
    }
    while i < chars.len()
        invariant
            chars@ == text@,
            i <= chars@.len(),
            pairs@ == encoded(text@.take(i as int)),
        decreases chars@.len() - i,
    {
        let code: u32 = chars[i] as u32;
        proof {
            let before = text@.take(i as int);
            let now = text@.take(i + 1);
            assert(now.drop_last() =~= before);
            assert(now.last() == chars@[i as int]);
            assert(encoded(now) =~= encoded(before) + pairs_of(char_units(chars@[i as int])));
        }
        if code < 0x10000 {
            pairs.push(split(code as u16));
        } else {
            let offset: u32 = code - 0x10000;
            pairs.push(split((0xD800 + offset / 0x400) as u16));
            pairs.push(split((0xDC00 + offset % 0x400) as u16));
        }
        i += 1;
    }
    proof {
        assert(text@.take(i as int) =~= text@);
    }
    pairs
}

/// The text that `units` store in UTF-16, or a `DecodeError` where they
/// store none.
pub fn decode(units: &Vec<[u8; 2]>) -> (text: Result<String, DecodeError>)
    ensures
        match decoded(units@) {
            Some(chars) => text matches Ok(s) && s@ == chars,
            None => text is Err,
        },
{
    let ghost all = units_of(units@);
    let mut chars: Vec<char> = Vec::new();
    let mut i: usize = 0;
    proof {
        assert(all.skip(0) =~= all);
        assert(chars@ + utf16_text(all)->0 =~= utf16_text(all)->0);
    }
    while i < units.len()
        invariant
            all == units_of(units@),
            i <= units@.len(),
            utf16_text(all) == preceded(chars@, utf16_text(all.skip(i as int))),
        decreases units@.len() - i,
    {
        let unit: u16 = join(&units[i]);
        let ghost tail = all.skip(i as int);
        proof {
            assert(tail[0] == unit);
            assert(tail.skip(1) =~= all.skip(i + 1));
        }
        if unit < 0xD800 || unit > 0xDFFF {
            match char::from_u32(unit as u32) {
                Some(c) => {
                    proof {
                        lemma_preceded_twice(chars@, seq![c], utf16_text(tail.skip(1)));
                    }
                    chars.push(c);
                    i += 1;
                },
                None => {
                    return Err(DecodeError);
                },
            }
        } else if unit <= 0xDBFF && i + 1 < units.len() {
            let next: u16 = join(&units[i + 1]);
            proof {
                assert(tail[1] == next);
                assert(tail.skip(2) =~= all.skip(i + 2));
            }
            if 0xDC00 <= next && next <= 0xDFFF {
                let high: u32 = (unit - 0xD800) as u32;
                let low: u32 = (next - 0xDC00) as u32;
                let code: u32 = 0x10000 + high * 0x400 + low;
                match char::from_u32(code) {
                    Some(c) => {
                        proof {
                            lemma_preceded_twice(chars@, seq![c], utf16_text(tail.skip(2)));
                        }
                        chars.push(c);
                        i += 2;
                    },
                    None => {
                        return Err(DecodeError);
                    },
                }
            } else {
                return Err(DecodeError);
            }
        } else {
            return Err(DecodeError);
        }
    }
    proof {
        assert(chars@ + Seq::<char>::empty() =~= chars@);
    }
    Ok(string_of(&chars))
}

/// Decoding gives back what was encoded: every text survives the trip
/// through its byte pairs.
pub proof fn lemma_decode_encode(text: Seq<char>)
    ensures
        decoded(encoded(text)) == Some(text),
{
    let units = utf16_units(text);
    assert(units_of(pairs_of(units)) =~= units);
    lemma_text_of_units(text, Seq::empty());
    assert(units + Seq::<u16>::empty() =~= units);
    assert(text + Seq::<char>::empty() =~= text);
}

/// The code units of `text`, followed by `rest`, decode to `text` followed
/// by what `rest` decodes to.
proof fn lemma_text_of_units(text: Seq<char>, rest: Seq<u16>)
    ensures
        utf16_text(utf16_units(text) + rest) == preceded(text, utf16_text(rest)),
    decreases text.len(),
{
    if text.len() == 0 {
        assert(utf16_units(text) + rest =~= rest);
        if let Some(tail) = utf16_text(rest) {
            assert(text + tail =~= tail);
        }
    } else {
        let c = text.last();
        let front = text.drop_last();
        lemma_text_of_units(front, char_units(c) + rest);
        assert(utf16_units(text) + rest =~= utf16_units(front) + (char_units(c) + rest));
        lemma_char_decodes(c, rest);
        lemma_preceded_twice(front, seq![c], utf16_text(rest));
        assert(front + seq![c] =~= text);
    }
}

/// The code units of one character, followed by `rest`, decode to that
/// character followed by what `rest` decodes to.
proof fn lemma_char_decodes(c: char, rest: Seq<u16>)
    ensures
        utf16_text(char_units(c) + rest) == preceded(seq![c], utf16_text(rest)),
{
    let units = char_units(c) + rest;
    let code = c as u32;
    if code < 0x10000 {
        assert(units[0] == code as u16);
        assert(units.skip(1) =~= rest);
        assert(units[0] as char == c);
    } else {
        assert(units[0] == (0xD800 + (code - 0x10000) / 0x400) as u16);
        assert(units[1] == (0xDC00 + (code - 0x10000) % 0x400) as u16);
        assert(units.skip(2) =~= rest);
        assert(paired(units[0], units[1]) == c);
    }
}

/// Splitting a code unit and joining the bytes again gives the unit back,
/// and the other way round.
pub proof fn lemma_pair_unit_inverse(unit: u16, pair: [u8; 2])
    ensures
        unit_of(pair_of(unit)) == unit,
        pair_of(unit_of(pair)) == pair,
{
    assert(pair_of(unit_of(pair)) =~= pair);
}

/// Text whose characters all lie below `0x10000` has one code unit per
/// character, the character's own number.
pub proof fn lemma_single_units(text: Seq<char>)
    requires
        forall|i: int| 0 <= i < text.len() ==> ((#[trigger] text[i]) as u32) < 0x10000,
    ensures
        utf16_units(text) == Seq::new(text.len(), |i: int| (text[i] as u32) as u16),
    decreases text.len(),
{
    if text.len() > 0 {
        let front = text.drop_last();
        assert forall|i: int| 0 <= i < front.len() implies ((#[trigger] front[i]) as u32)
            < 0x10000 by {
            assert(front[i] == text[i]);
        }
        lemma_single_units(front);
        let code = text[text.len() - 1] as u32;
        assert(code < 0x10000);
        assert(Seq::new(front.len(), |i: int| (front[i] as u32) as u16) + seq![code as u16]
            =~= Seq::new(text.len(), |i: int| (text[i] as u32) as u16));
    } else {
        assert(utf16_units(text) =~= Seq::new(text.len(), |i: int| (text[i] as u32) as u16));
    }
}

/// Code units without surrogates decode one by one, each to the character
/// of its own number.
pub proof fn lemma_plain_units_decode(units: Seq<u16>)
    requires
        forall|i: int| 0 <= i < units.len() ==> !is_surrogate(#[trigger] units[i]),
    ensures
        utf16_text(units) == Some(Seq::new(units.len(), |i: int| units[i] as char)),
    decreases units.len(),
{
    if units.len() > 0 {
        let rest = units.skip(1);
        assert forall|i: int| 0 <= i < rest.len() implies !is_surrogate(#[trigger] rest[i]) by {
            assert(rest[i] == units[i + 1]);
        }
        lemma_plain_units_decode(rest);
        assert(!is_surrogate(units[0]));
        assert(seq![units[0] as char] + Seq::new(rest.len(), |i: int| rest[i] as char) =~= Seq::new(
            units.len(),
            |i: int| units[i] as char,
        ));
    } else {
        assert(Seq::<char>::empty() =~= Seq::new(units.len(), |i: int| units[i] as char));
    }
}

/// Putting `a` in front of `b` in front of `rest` puts `a + b` in front of
/// `rest`.
proof fn lemma_preceded_twice(a: Seq<char>, b: Seq<char>, rest: Option<Seq<char>>)
    ensures
        preceded(a, preceded(b, rest)) == preceded(a + b, rest),
        b.len() == 1 ==> a + b == a.push(b[0]),
{
    if let Some(tail) = rest {
        assert(a + (b + tail) =~= (a + b) + tail);
    }
    if b.len() == 1 {
        assert(a + b =~= a.push(b[0]));
    }
}

} // verus!
