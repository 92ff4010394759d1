//! The chat-completion side of the library: model identifiers and the
//! construction of the message list that a completion request carries.
//!
//! The network call itself is glue around this crate and stays outside it;
//! these items cover everything about a request that is plain data.

pub mod structs;

use vstd::prelude::*;
use vstd::string::StringExecFns;

use crate::openai::structs::Message;
use crate::openai::structs::Role;

verus! {

/// Identifier of a chat-completion model offered by the remote endpoint.
#[derive(Copy, Clone, Debug)]
pub enum ModelId {
    Gpt4o,
    Gpt4oMini,
}

impl ModelId {
    /// The wire name of the model, exactly as a request names it.
    pub open spec fn spec_name(self) -> Seq<char> {
        match self {
            ModelId::Gpt4o => "gpt-4o"@,
            ModelId::Gpt4oMini => "gpt-4o-mini"@,
        }
    }

    /// Returns the wire name of the model.
    pub fn to_string(&self) -> (s: String)
        ensures
            s@ == self.spec_name(),
    {
        match self {
            ModelId::Gpt4o => String::from_str("gpt-4o"),
            ModelId::Gpt4oMini => String::from_str("gpt-4o-mini"),
        }
    }
}

/// The instruction text that opens every conversation sent to the endpoint.
pub open spec fn spec_default_system_prompt() -> Seq<char> {
    "\nYou are an expert software developer with extensive knowledge in various programming languages, frameworks, and best practices.\n\nWhen responding to user queries, you should break down complex problems into manageable steps, carefully consider each step, and provide clear, precise, and well-explained answers.\n\nYour goal is to help the user solve their technical problems efficiently, while also providing educational value by explaining the reasoning behind your solutions.\n\nStrive to simplify your explanations as much as possible, making complex concepts accessible without losing accuracy. Whenever necessary, offer additional context or alternatives to ensure the user fully understands the topic at hand."@
}

/// Returns the default system prompt as an owned string.
pub fn default_system_prompt() -> (s: String)
    ensures
        s@ == spec_default_system_prompt(),
{
    String::from_str(
        "\nYou are an expert software developer with extensive knowledge in various programming languages, frameworks, and best practices.\n\nWhen responding to user queries, you should break down complex problems into manageable steps, carefully consider each step, and provide clear, precise, and well-explained answers.\n\nYour goal is to help the user solve their technical problems efficiently, while also providing educational value by explaining the reasoning behind your solutions.\n\nStrive to simplify your explanations as much as possible, making complex concepts accessible without losing accuracy. Whenever necessary, offer additional context or alternatives to ensure the user fully understands the topic at hand.",
    )
}

/// Builds the ordered message list of a completion request: the default
/// system prompt first, then the user's message.
pub fn build_chat_messages(user_message: String) -> (msgs: Vec<Message>)
    ensures
        msgs@.len() == 2,
        msgs@[0].role == Role::System,
        msgs@[0].content@ == spec_default_system_prompt(),
        msgs@[1].role == Role::User,
        msgs@[1].content@ == user_message@,
{
    let mut msgs: Vec<Message> = Vec::new();
    msgs.push(Message { role: Role::System, content: default_system_prompt() });
    msgs.push(Message { role: Role::User, content: user_message });
    msgs
}

} // verus!
