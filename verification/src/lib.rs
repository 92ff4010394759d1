pub mod markdown;
pub mod openai;
