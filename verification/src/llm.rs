//! What is decided around a call of the language model: how its
//! instructions are worded, and which messages it takes.

use crate::models::chat::{role_named, LLMMessage, MessageRole};
use crate::text::{push_str, string_of};
use vstd::prelude::*;

verus! {

/// The language model that is asked where none is named.
pub const DEFAULT_MODEL: &'static str = "mistral-small3.2:24b";

/// Where the language model is reached where no address is named: an
/// inference service on this machine.
pub const DEFAULT_API_BASE: &'static str = "http://localhost:11434/v1";

/// The key sent to the service where none is named.
pub const DEFAULT_API_KEY: &'static str = "ollama";

/// How the language model is reached and which model is asked.
#[derive(Debug)]
pub struct LlmConfig {
    pub api_base: String,
    pub api_key: String,
    pub model: String,
}

impl LlmConfig {
    /// The service on this machine with the default model.
    pub fn new() -> (config: Self)
        ensures
            config.api_base@ == DEFAULT_API_BASE@,
            config.api_key@ == DEFAULT_API_KEY@,
            config.model@ == DEFAULT_MODEL@,
    {
        Self::with_config(DEFAULT_API_BASE, DEFAULT_API_KEY, DEFAULT_MODEL)
    }

    /// A service and a model of the caller's choice.
    pub fn with_config(api_base: &str, api_key: &str, model: &str) -> (config: Self)
        ensures
            config.api_base@ == api_base@,
            config.api_key@ == api_key@,
            config.model@ == model@,
    {
        LlmConfig {
            api_base: api_base.to_owned(),
            api_key: api_key.to_owned(),
            model: model.to_owned(),
        }
    }

    /// The model that is asked.
    pub fn get_model(&self) -> (model: &str)
        ensures
            model@ == self.model@,
    {
        self.model.as_str()
    }
}

/// The instructions for an answer that is to draw on `context`: those of
/// the caller followed by the context, or a plain request to use the
/// context where the caller gives none.
pub open spec fn context_prompt(system_prompt: Option<Seq<char>>, context: Seq<char>) -> Seq<char> {
    match system_prompt {
        Some(prompt) => prompt + "\n\nContext:\n"@ + context,
        None => "Use the following context to answer the user's question:\n\n"@ + context,
    }
}

/// The instructions for an answer that is to draw on `context`.
pub fn system_content(system_prompt: Option<&str>, context: &str) -> (out: String)
    ensures
        out@ == context_prompt(
            match system_prompt {
                Some(p) => Some(p@),
                None => None,
            },
            context@,
        ),
{
    let mut buf: Vec<char> = Vec::new();
    match system_prompt {
        Some(prompt) => {
            push_str(&mut buf, prompt);
            push_str(&mut buf, "\n\nContext:\n");
            push_str(&mut buf, context);
            assert(buf@ =~= prompt@ + "\n\nContext:\n"@ + context@);
        },
        None => {
            push_str(&mut buf, "Use the following context to answer the user's question:\n\n");
            push_str(&mut buf, context);
            assert(buf@ =~= "Use the following context to answer the user's question:\n\n"@
                + context@);
        },
    }
    string_of(buf.as_slice())
}

/// The first message whose role the language model does not take, if there
/// is one.
pub open spec fn first_unknown_role(messages: Seq<LLMMessage>, from: int) -> Option<int>
    decreases messages.len() - from,
{
    if from < 0 || from >= messages.len() {
        None
    } else if role_named(messages[from].role@) is None {
        Some(from)
    } else {
        first_unknown_role(messages, from + 1)
    }
}

/// The roles of the messages of a request, in order, or the place of the
/// first message whose role the language model does not take: it takes
/// those of `user`, `assistant` and `system`.
pub fn message_roles(messages: &[LLMMessage]) -> (r: Result<Vec<MessageRole>, usize>)
    ensures
        match r {
            Ok(roles) => first_unknown_role(messages@, 0) is None && roles@.len()
                == messages@.len() && forall|k: int|
                0 <= k < roles@.len() ==> role_named(messages@[k].role@) == Some(
                    #[trigger] roles@[k],
                ),
            Err(at) => first_unknown_role(messages@, 0) == Some(at as int) && at
                < messages@.len(),
        },
{
    let mut roles: Vec<MessageRole> = Vec::new();
    let mut i: usize = 0;
    while i < messages.len()
        invariant
            i <= messages.len(),
            roles@.len() == i,
            first_unknown_role(messages@, i as int) == first_unknown_role(messages@, 0),
            forall|k: int|
                0 <= k < i ==> role_named(messages@[k].role@) == Some(#[trigger] roles@[k]),
        decreases messages.len() - i,
    {
        match MessageRole::from_str(messages[i].role.as_str()) {
            Some(role) => {
                roles.push(role);
            },
            None => {
                return Err(i);
            },
        }
        i += 1;
    }
    Ok(roles)
}

/// What is said of a message whose role the language model does not take.
pub open spec fn unsupported_role_text(role: Seq<char>) -> Seq<char> {
    "Unsupported message role: "@ + role
}

/// What is said of a message whose role the language model does not take.
pub fn unsupported_role(role: &str) -> (out: String)
    ensures
        out@ == unsupported_role_text(role@),
{
    let mut buf: Vec<char> = Vec::new();
    push_str(&mut buf, "Unsupported message role: ");
    push_str(&mut buf, role);
    assert(buf@ =~= unsupported_role_text(role@));
    string_of(buf.as_slice())
}

} // verus!
