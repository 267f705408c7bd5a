//! Chat sessions and their messages.

use crate::models::{ChatSessionId, GameId};
use crate::text::{joined_with, same_text, signed_decimal};
use vstd::prelude::*;

verus! {

/// Who wrote a message.
#[derive(Debug, Clone, Copy, PartialEq, Eq, Structural)]
pub enum MessageRole {
    User,
    Assistant,
    System,
}

/// The name under which a role is stored.
pub open spec fn role_name(role: MessageRole) -> Seq<char> {
    match role {
        MessageRole::User => "user"@,
        MessageRole::Assistant => "assistant"@,
        MessageRole::System => "system"@,
    }
}

/// The role stored under a name, if it is the name of one.
pub open spec fn role_named(name: Seq<char>) -> Option<MessageRole> {
    if name == "user"@ {
        Some(MessageRole::User)
    } else if name == "assistant"@ {
        Some(MessageRole::Assistant)
    } else if name == "system"@ {
        Some(MessageRole::System)
    } else {
        None
    }
}

/// A role is found again under its name.
pub proof fn lemma_role_round_trip(role: MessageRole)
    ensures
        role_named(role_name(role)) == Some(role),
{
    reveal_strlit("user");
    reveal_strlit("assistant");
    reveal_strlit("system");
    assert("user"@.len() == 4);
    assert("assistant"@.len() == 9);
    assert("system"@.len() == 6);
}

impl MessageRole {
    /// The name under which the role is stored.
    pub fn as_str(&self) -> (name: &'static str)
        ensures
            name@ == role_name(*self),
    {
        match self {
            MessageRole::User => "user",
            MessageRole::Assistant => "assistant",
            MessageRole::System => "system",
        }
    }

    /// The role stored under `s`, if it is the name of one.
    pub fn from_str(s: &str) -> (role: Option<Self>)
        ensures
            role == role_named(s@),
    {
        if same_text(s, "user") {
            Some(MessageRole::User)
        } else if same_text(s, "assistant") {
            Some(MessageRole::Assistant)
        } else if same_text(s, "system") {
            Some(MessageRole::System)
        } else {
            None
        }
    }
}

/// The role that a stored name stands for: a name that is none is read as
/// the user.
pub open spec fn role_stored_as(name: Seq<char>) -> MessageRole {
    match role_named(name) {
        Some(role) => role,
        None => MessageRole::User,
    }
}

/// The role that a stored name stands for.
pub fn stored_role(name: &str) -> (role: MessageRole)
    ensures
        role == role_stored_as(name@),
{
    match MessageRole::from_str(name) {
        Some(role) => role,
        None => MessageRole::User,
    }
}

/// A list of ids as JSON: each id in decimal digits, with commas and
/// nothing else between them, inside square brackets.
pub open spec fn json_of_ids(ids: Seq<i64>) -> Seq<char> {
    "["@ + joined_with(ids.map_values(|id: i64| signed_decimal(id as int)), ","@) + "]"@
}

/// What `serde_json::from_str` reads from a text as a list of ids, where it
/// reads one.
pub uninterp spec fn ids_of_json(text: Seq<char>) -> Option<Seq<i64>>;

/// Calls `serde_json::to_string` on a list of ids. It writes a list as
/// its items between square brackets with commas between them, and an
/// integer in decimal digits; it fails only where an item refuses to be
/// written or a map has a key that is no string, which no list of integers
/// does.
#[verifier::external_body]
fn ids_to_json(ids: &Vec<i64>) -> (text: Option<String>)
    ensures
        text is Some,
        text matches Some(t) ==> t@ == json_of_ids(ids@),
{
    serde_json::to_string(ids).ok()
}

/// Calls `serde_json::from_str` to read a list of ids. The result is only
/// named; an error of `serde_json` gives nothing.
#[verifier::external_body]
fn json_to_ids(text: &str) -> (ids: Option<Vec<i64>>)
    ensures
        match ids {
            Some(v) => ids_of_json(text@) == Some(v@),
            None => ids_of_json(text@) is None,
        },
{
    serde_json::from_str::<Vec<i64>>(text).ok()
}

/// How the chunks that a message drew on are stored, given what the JSON
/// writer made of them: as that text, as `[]` where the writer failed, and
/// not at all where the message drew on none.
pub open spec fn context_chunks_text(
    has_chunks: bool,
    written: Option<Seq<char>>,
) -> Option<Seq<char>> {
    if has_chunks {
        match written {
            Some(text) => Some(text),
            None => Some("[]"@),
        }
    } else {
        None
    }
}

/// How the chunks that a message drew on are stored, given what the JSON
/// writer made of them.
pub fn stored_context_chunks(has_chunks: bool, written: Option<String>) -> (text: Option<String>)
    ensures
        match text {
            Some(t) => Some(t@),
            None => None,
        } == context_chunks_text(
            has_chunks,
            match written {
                Some(w) => Some(w@),
                None => None,
            },
        ),
{
    if !has_chunks {
        None
    } else {
        match written {
            Some(w) => Some(w),
            None => Some("[]".to_owned()),
        }
    }
}

/// The text under which the ids of the chunks that a message drew on are
/// stored.
pub fn encode_context_chunks(chunks: &Option<Vec<i64>>) -> (text: Option<String>)
    ensures
        match text {
            Some(t) => chunks matches Some(ids) && t@ == json_of_ids(ids@),
            None => chunks is None,
        },
{
    match chunks {
        None => None,
        Some(ids) => {
            let written = ids_to_json(ids);
            stored_context_chunks(true, written)
        },
    }
}

/// The ids of the chunks that a message drew on, read from what is stored:
/// none where nothing is stored or what is stored is no list of ids.
pub fn decode_context_chunks(text: &Option<String>) -> (chunks: Option<Vec<i64>>)
    ensures
        match chunks {
            Some(ids) => text matches Some(t) && ids_of_json(t@) == Some(ids@),
            None => text matches Some(t) ==> ids_of_json(t@) is None,
        },
{
    match text {
        None => None,
        Some(t) => json_to_ids(t.as_str()),
    }
}

/// A request to open a chat session on a game.
#[derive(Debug)]
pub struct CreateChatSessionRequest {
    pub game_id: GameId,
    pub title: Option<String>,
}

/// A question put in a chat session.
#[derive(Debug)]
pub struct ChatRequest {
    pub session_id: ChatSessionId,
    pub message: String,
}

/// A message as the language model takes it.
#[derive(Debug)]
pub struct LLMMessage {
    pub role: String,
    pub content: String,
}

} // verus!
