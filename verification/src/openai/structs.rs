//! Plain data carried between the application and the completion endpoint.
//!
//! These types hold the request and response shapes as values; turning them
//! into or out of bytes on the wire is the surrounding application's work.

use std::collections::HashMap;
use vstd::prelude::*;

verus! {

/// The author of a conversation message.
#[derive(Clone, PartialEq, Debug)]
pub enum Role {
    User,
    System,
    Assistant,
}

/// One role-tagged message of a conversation.
#[derive(Debug, Clone)]
pub struct Message {
    pub role: Role,
    pub content: String,
}

/// One candidate completion inside a response.
#[derive(Debug)]
pub struct ChatCompletionsChoice {
    pub finish_reason: String,
    pub index: i32,
    pub message: Message,
    pub logprobs: Option<bool>,
}

/// Token accounting reported with a response.
#[derive(Debug)]
pub struct Usage {
    pub completion_tokens: i32,
    pub prompt_tokens: i32,
    pub total_tokens: i32,
}

/// A full completion response from the endpoint.
#[derive(Debug)]
pub struct ChatCompletionsResponse {
    pub id: String,
    pub object: String,
    pub created: i64,
    pub model: String,
    pub choices: Vec<ChatCompletionsChoice>,
    pub usage: Usage,
    pub system_fingerprint: Option<String>,
}

/// An echo-style response used when poking a test endpoint.
#[derive(Debug)]
pub struct PersonResponse {
    pub data: String,
    pub method: String,
    pub headers: HashMap<String, String>,
}

} // verus!
