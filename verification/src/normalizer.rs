//! Normalization: raw text brought down to upper-case ASCII letters and
//! digits before it is encrypted.

use crate::chars::{chars_of, string_of};
use unicode_normalization::UnicodeNormalization;
use vstd::prelude::*;

verus! {

/// The canonical decomposition (NFD) of `text`, as the crate
/// `unicode_normalization` computes it.
pub uninterp spec fn nfd(text: Seq<char>) -> Seq<char>;

/// `c` is an ASCII character.
pub open spec fn is_ascii(c: char) -> bool {
    c as u32 <= 0x7f
}

/// Every character of `text` is an ASCII character.
pub open spec fn all_ascii(text: Seq<char>) -> bool {
    forall|i: int| 0 <= i < text.len() ==> is_ascii(#[trigger] text[i])
}

/// `c` is an ASCII letter or digit.
pub open spec fn is_alphanumeric(c: char) -> bool {
    ('0' <= c <= '9') || ('A' <= c <= 'Z') || ('a' <= c <= 'z')
}

/// `c` is an upper-case ASCII letter or a digit.
pub open spec fn is_canonical(c: char) -> bool {
    ('0' <= c <= '9') || ('A' <= c <= 'Z')
}

/// `c` in upper case, for an ASCII letter; any other character unchanged.
pub open spec fn upper(c: char) -> char {
    if 'a' <= c <= 'z' {
        (c as u32 - 32) as char
    } else {
        c
    }
}

/// The decomposition that normalization starts from: text that is all
/// ASCII is its own, any other text has the one named by `nfd`.
pub open spec fn decomposed(text: Seq<char>) -> Seq<char> {
    if all_ascii(text) {
        text
    } else {
        nfd(text)
    }
}

/// `text` without the characters that are not ASCII letters or digits, and
/// with its letters in upper case.
pub open spec fn canonical(text: Seq<char>) -> Seq<char>
    decreases text.len(),
{
    if text.len() == 0 {
        Seq::empty()
    } else {
        let front = canonical(text.drop_last());
        if is_alphanumeric(text.last()) {
            front.push(upper(text.last()))
        } else {
            front
        }
    }
}

/// The normal form of `text`: decomposed, then stripped to ASCII letters
/// and digits, then upper-cased.
pub open spec fn normalized(text: Seq<char>) -> Seq<char> {
    canonical(decomposed(text))
}

/// The canonical decomposition of `text`.
///
/// Trusted: calls `UnicodeNormalization::nfd` of `unicode_normalization` on
/// the string and collects what it yields. The result is a function of the
/// text alone and is named `nfd`. One fact is claimed of it: text that is
/// all ASCII comes back unchanged, since the crate emits an ASCII character
/// as it is (ASCII never decomposes) and reorders only combining marks,
/// of which ASCII has none.
#[verifier::external_body]
fn decompose(text: &str) -> (out: String)
    ensures
        out@ == if all_ascii(text@) {
            text@
        } else {
            nfd(text@)
        },
{
    text.nfd().collect()
}

/// Every character that `canonical` keeps is an upper-case ASCII letter or
/// a digit.
pub proof fn lemma_canonical_range(text: Seq<char>)
    ensures
        forall|i: int|
            0 <= i < canonical(text).len() ==> is_canonical(#[trigger] canonical(text)[i]),
    decreases text.len(),
{
    if text.len() > 0 {
        let front = canonical(text.drop_last());
        lemma_canonical_range(text.drop_last());
        assert forall|i: int| 0 <= i < canonical(text).len() implies is_canonical(
            #[trigger] canonical(text)[i],
        ) by {
            if i < front.len() {
                assert(canonical(text)[i] == front[i]);
            } else {
                lemma_upper_canonical(text.last());
            }
        }
    }
}

/// The upper case of an ASCII letter or digit is an upper-case ASCII letter
/// or a digit.
proof fn lemma_upper_canonical(c: char)
    requires
        is_alphanumeric(c),
    ensures
        is_canonical(upper(c)),
{
    if 'a' <= c <= 'z' {
        let code = (c as u32 - 32) as u32;
        assert(0x41 <= code <= 0x5a);
        assert((code as char) as u32 == code);
    }
}

/// Text made of upper-case ASCII letters and digits is its own canonical
/// form.
pub proof fn lemma_canonical_fixed(text: Seq<char>)
    requires
        forall|i: int| 0 <= i < text.len() ==> is_canonical(#[trigger] text[i]),
    ensures
        canonical(text) == text,
    decreases text.len(),
{
    if text.len() > 0 {
        let front = text.drop_last();
        assert forall|i: int| 0 <= i < front.len() implies is_canonical(#[trigger] front[i]) by {
            assert(front[i] == text[i]);
        }
        lemma_canonical_fixed(front);
        assert(is_canonical(text[text.len() - 1]));
        assert(front.push(text.last()) =~= text);
    }
}

/// The normal form holds nothing but upper-case ASCII letters and digits.
pub proof fn law_normalized_range(text: Seq<char>)
    ensures
        forall|i: int|
            0 <= i < normalized(text).len() ==> is_canonical(#[trigger] normalized(text)[i]),
{
    lemma_canonical_range(decomposed(text));
}

/// Normalizing is idempotent: a normal form is its own normal form.
pub proof fn law_normalized_idempotent(text: Seq<char>)
    ensures
        normalized(normalized(text)) == normalized(text),
{
    let once = normalized(text);
    law_normalized_range(text);
    assert(all_ascii(once)) by {
        assert forall|i: int| 0 <= i < once.len() implies is_ascii(#[trigger] once[i]) by {
            assert(is_canonical(once[i]));
        }
    }
    lemma_canonical_fixed(once);
}

/// `text` without the characters that are not ASCII letters or digits, and
/// with its letters in upper case.
pub fn canonicalize(text: &str) -> (out: String)
    ensures
        out@ == canonical(text@),
        forall|i: int| 0 <= i < out@.len() ==> is_canonical(#[trigger] out@[i]),
{
    let chars: Vec<char> = chars_of(text);
    let mut kept: Vec<char> = Vec::new();
    let mut i: usize = 0;
    while i < chars.len()
        invariant
            chars@ == text@,
            i <= chars@.len(),
            kept@ == canonical(text@.take(i as int)),
        decreases chars@.len() - i,
    {
        let c: char = chars[i];
        proof {
            assert(text@.take(i + 1).drop_last() =~= text@.take(i as int));
        }
        if ('0' <= c && c <= '9') || ('A' <= c && c <= 'Z') {
            kept.push(c);
        } else if 'a' <= c && c <= 'z' {
            kept.push(((c as u8) - 32) as char);
        }
        i += 1;
    }
    proof {
        assert(text@.take(i as int) =~= text@);
        lemma_canonical_range(text@);
    }
    string_of(&kept)
}

/// The normal form of `contents`: its canonical decomposition, without
/// the characters that are not ASCII letters or digits, in upper case.
pub fn format_contents(contents: String) -> (out: String)
    ensures
        out@ == normalized(contents@),
        forall|i: int| 0 <= i < out@.len() ==> is_canonical(#[trigger] out@[i]),
{
    let parts: String = decompose(contents.as_str());
    canonicalize(parts.as_str())
}

} // verus!
