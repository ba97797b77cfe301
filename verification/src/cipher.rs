//! The cipher: every code unit is XORed with the key pair of its slot.

use crate::frequency::SLOTS;
use crate::key::Key;
use crate::message::{message_of, Message, MessageView};
use vstd::prelude::*;

verus! {

/// `pair` XORed with `key`, byte by byte.
pub open spec fn xor_pair(pair: [u8; 2], key: [u8; 2]) -> [u8; 2] {
    [pair[0] ^ key[0], pair[1] ^ key[1]]
}

/// `bytes` with the pair at each position `i` XORed with the key pair of
/// slot `i % 4`.
pub open spec fn xor_stream(bytes: Seq<[u8; 2]>, key: Seq<[u8; 2]>) -> Seq<[u8; 2]> {
    Seq::new(bytes.len(), |i: int| xor_pair(bytes[i], key[i % 4]))
}

/// The message that `transform` makes of `message` under `key`.
pub open spec fn transformed(message: MessageView, key: Seq<[u8; 2]>) -> MessageView {
    message_of(xor_stream(message.bytes, key))
}

/// XOR with a key pair undoes itself: applied twice it gives the pair back,
/// and a pair XORed with its own image gives the key pair.
pub proof fn lemma_xor_pair_involution(pair: [u8; 2], key: [u8; 2])
    ensures
        xor_pair(xor_pair(pair, key), key) == pair,
        xor_pair(pair, xor_pair(pair, key)) == key,
{
    let a = pair[0];
    let b = pair[1];
    let k = key[0];
    let l = key[1];
    assert((a ^ k) ^ k == a && (b ^ l) ^ l == b && a ^ (a ^ k) == k && b ^ (b ^ l) == l)
        by (bit_vector);
    assert(xor_pair(xor_pair(pair, key), key) =~= pair);
    assert(xor_pair(pair, xor_pair(pair, key)) =~= key);
}

/// Applying a key to a stream twice gives the stream back.
pub proof fn lemma_xor_stream_involution(bytes: Seq<[u8; 2]>, key: Seq<[u8; 2]>)
    ensures
        xor_stream(xor_stream(bytes, key), key) == bytes,
{
    assert forall|i: int| 0 <= i < bytes.len() implies #[trigger] xor_stream(
        xor_stream(bytes, key),
        key,
    )[i] == bytes[i] by {
        lemma_xor_pair_involution(bytes[i], key[i % 4]);
    }
    assert(xor_stream(xor_stream(bytes, key), key) =~= bytes);
}

/// The transform is its own inverse: applied twice under one key it gives
/// the message back, bytes, text and mark. This is why one function both
/// encrypts and decrypts.
pub proof fn law_transform_involution(message: MessageView, key: Seq<[u8; 2]>)
    requires
        message.wf(),
    ensures
        transformed(transformed(message, key), key) == message,
{
    lemma_xor_stream_involution(message.bytes, key);
}

/// XORs the two bytes of `pair` with those of `key`.
fn xor_bytes(pair: &[u8; 2], key: &[u8; 2]) -> (out: [u8; 2])
    ensures
        out == xor_pair(*pair, *key),
{
    let out: [u8; 2] = [pair[0] ^ key[0], pair[1] ^ key[1]];
    assert(out =~= xor_pair(*pair, *key));
    out
}

/// The message whose code unit at each position `i` is that of `message`
/// XORed, byte by byte, with the key pair of slot `i % 4`, and whose text is
/// what those units decode to. Encrypts and decrypts alike.
pub fn transform(message: &Message, key: &Key) -> (out: Message)
    ensures
        out@ == transformed(message@, key@),
        out@.wf(),
{
    let source: &Vec<[u8; 2]> = message.bytes();
    let mut bytes: Vec<[u8; 2]> = Vec::new();
    let mut i: usize = 0;
    while i < source.len()
        invariant
            source@ == message@.bytes,
            i <= source@.len(),
            bytes@.len() == i,
            forall|j: int| 0 <= j < i ==> #[trigger] bytes@[j] == xor_pair(source@[j], key@[j % 4]),
        decreases source@.len() - i,
    {
        bytes.push(xor_bytes(&source[i], &key.bytes[i % SLOTS]));
        i += 1;
    }
    proof {
        assert(bytes@ =~= xor_stream(message@.bytes, key@));
    }
    Message::from_bytes(bytes)
}

/// Encrypts `message` under `key`.
pub fn encrypt(message: &Message, key: &Key) -> (out: Message)
    ensures
        out@ == transformed(message@, key@),
        out@.wf(),
{
    transform(message, key)
}

/// Decrypts `message` under `key`.
pub fn decrypt(message: &Message, key: &Key) -> (out: Message)
    ensures
        out@ == transformed(message@, key@),
        out@.wf(),
{
    transform(message, key)
}

} // verus!
