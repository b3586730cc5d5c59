//! Envelopes as text: what arrives on a line and what leaves on one.

use vstd::prelude::*;
use vstd::string::StringExecFns;
use crate::error::{DecodeError, EncodeError};
use crate::json::{Json, JsonView};
use crate::model::Msg;
use crate::node::Message;
use crate::payload::Payload;
use crate::value::{from_value, json_of, parse_text, parsed, render_value, rendered};
use crate::wire::{message_json, message_of};

verus! {

/// How deep the arrays and objects of a text may stand inside one another.
pub const MAX_DEPTH: usize = 128;

/// The JSON value that `text` holds; none where the text is no JSON or is
/// nested deeper than [`MAX_DEPTH`].
pub open spec fn json_in(text: Seq<char>) -> Option<JsonView> {
    match parsed(text) {
        Some(value) => json_of(value, MAX_DEPTH as nat),
        None => None,
    }
}

/// The envelope that `text` holds; none where the text holds no JSON value
/// or the value is no well-formed envelope.
pub open spec fn decoded(text: Seq<char>) -> Option<Msg> {
    match json_in(text) {
        Some(j) => message_of(j),
        None => None,
    }
}

/// Whether writing `j` comes out as `text`: whether a value of `serde_json`
/// holds `j` and is written as `text`, or cannot be written where `text` is
/// none.
pub open spec fn written(j: JsonView, text: Option<Seq<char>>) -> bool {
    exists|value: serde_json::Value, depth: nat| #[trigger]
        json_of(value, depth) == Some(j) && rendered(value) == text
}

impl Json {
    /// Reads a JSON value from `text`.
    pub fn parse(text: &str) -> (j: Option<Json>)
        ensures
            match j {
                Some(j) => json_in(text@) == Some(j@),
                None => json_in(text@) is None,
            },
    {
        match parse_text(text) {
            Ok(value) => from_value(value, MAX_DEPTH),
            Err(_) => None,
        }
    }

    /// Writes the value as text. Fails where a number has no value, and
    /// where `serde_json` fails to write.
    pub fn render(&self) -> (text: Result<String, EncodeError>)
        ensures
            match text {
                Ok(text) => self.writable() && written(self@, Some(text@)),
                Err(_) => !self.writable() || written(self@, None),
            },
    {
        match self.to_value() {
            Some(value) => match render_value(&value) {
                Ok(text) => {
                    assert(json_of(value, self.nesting()) == Some(self@));
                    Ok(text)
                },
                Err(_) => {
                    assert(json_of(value, self.nesting()) == Some(self@));
                    Err(EncodeError::Unrepresentable)
                },
            },
            None => Err(EncodeError::Unrepresentable),
        }
    }
}

/// Reads an envelope from `text`.
///
/// Fails exactly where the text holds no well-formed envelope.
pub fn decode(text: &str) -> (message: Result<Message<Payload>, DecodeError>)
    ensures
        match message {
            Ok(m) => decoded(text@) == Some(m@),
            Err(_) => decoded(text@) is None,
        },
{
    match Json::parse(text) {
        Some(j) => Message::from_json(&j),
        None => Err(DecodeError::Malformed),
    }
}

/// Writes `message` as text.
///
/// Fails only where `serde_json` fails to write the value that holds the
/// message.
pub fn encode(message: &Message<Payload>) -> (text: Result<String, EncodeError>)
    ensures
        match text {
            Ok(text) => written(message_json(message@), Some(text@)),
            Err(_) => written(message_json(message@), None),
        },
{
    message.to_json().render()
}

/// Writes `message` as one line: its text and a line feed.
pub fn encode_line(message: &Message<Payload>) -> (line: Result<String, EncodeError>)
    ensures
        match line {
            Ok(line) => line@.len() > 0 && line@.last() == '\n' && written(
                message_json(message@),
                Some(line@.drop_last()),
            ),
            Err(_) => written(message_json(message@), None),
        },
{
    match encode(message) {
        Ok(text) => {
            let ghost body = text@;
            let mut line = text;
            proof {
                reveal_strlit("\n");
            }
            line.append("\n");
            assert(line@.drop_last() =~= body);
            Ok(line)
        },
        Err(e) => Err(e),
    }
}

} // verus!
