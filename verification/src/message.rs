//! A message: code units as byte pairs, and the text they decode to.

use crate::codec::{decode, decoded, encode, encoded, lemma_decode_encode};
use vstd::prelude::*;

verus! {

/// What a message is: its byte pairs, its text, and whether the text is
/// the empty stand-in for byte pairs that would not decode.
pub struct MessageView {
    pub bytes: Seq<[u8; 2]>,
    pub text: Seq<char>,
    pub substituted: bool,
}

/// The message that `bytes` make: their decoded text where they are valid
/// UTF-16; otherwise the empty text, marked as substituted.
pub open spec fn message_of(bytes: Seq<[u8; 2]>) -> MessageView {
    match decoded(bytes) {
        Some(text) => MessageView { bytes, text, substituted: false },
        None => MessageView { bytes, text: Seq::empty(), substituted: true },
    }
}

impl MessageView {
    /// Text and mark are those that the byte pairs determine.
    pub open spec fn wf(self) -> bool {
        self == message_of(self.bytes)
    }
}

/// A sequence of code units, each a pair of bytes, together with the text
/// they decode to.
#[derive(Debug)]
pub struct Message {
    bytes: Vec<[u8; 2]>,
    text: String,
    substituted: bool,
}

impl View for Message {
    type V = MessageView;

    closed spec fn view(&self) -> MessageView {
        MessageView { bytes: self.bytes@, text: self.text@, substituted: self.substituted }
    }
}

impl Message {
    /// The message that holds `text` and its UTF-16 code units.
    pub fn from_string(text: String) -> (message: Message)
        ensures
            message@ == (MessageView { bytes: encoded(text@), text: text@, substituted: false }),
            message@.wf(),
    {
        let bytes: Vec<[u8; 2]> = encode(text.as_str());
        proof {
            lemma_decode_encode(text@);
        }
        Message { bytes, text, substituted: false }
    }

    /// The message that holds `bytes` and the text they decode to. Byte
    /// pairs that are not valid UTF-16 get the empty text, and the message
    /// is marked as substituted.
    pub fn from_bytes(bytes: Vec<[u8; 2]>) -> (message: Message)
        ensures
            message@ == message_of(bytes@),
            message@.wf(),
    {
        match decode(&bytes) {
            Ok(text) => Message { bytes, text, substituted: false },
            Err(_) => Message { bytes, text: String::new(), substituted: true },
        }
    }

    /// The code units, each as a big-endian pair of bytes.
    pub fn bytes(&self) -> (bytes: &Vec<[u8; 2]>)
        ensures
            bytes@ == self@.bytes,
    {
        &self.bytes
    }

    /// The text.
    pub fn text(&self) -> (text: &String)
        ensures
            text@ == self@.text,
    {
        &self.text
    }

    /// Whether the text is the empty stand-in for byte pairs that are not
    /// valid UTF-16.
    pub fn substituted(&self) -> (substituted: bool)
        ensures
            substituted == self@.substituted,
    {
        self.substituted
    }

    /// Gives up the message for its text.
    pub fn into_text(self) -> (text: String)
        ensures
            text@ == self@.text,
    {
        self.text
    }
}

} // verus!
