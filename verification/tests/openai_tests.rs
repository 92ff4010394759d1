use shzgptr_gui::openai::build_chat_messages;
use shzgptr_gui::openai::default_system_prompt;
use shzgptr_gui::openai::structs::Role;
use shzgptr_gui::openai::ModelId;

#[test]
fn model_id_wire_names() {
    assert_eq!(ModelId::Gpt4o.to_string(), "gpt-4o");
    assert_eq!(ModelId::Gpt4oMini.to_string(), "gpt-4o-mini");
}

#[test]
fn chat_messages_hold_prompt_then_user() {
    let msgs = build_chat_messages(String::from("how do I sort a vec?"));
    assert_eq!(msgs.len(), 2);
    assert_eq!(msgs[0].role, Role::System);
    assert_eq!(msgs[0].content, default_system_prompt());
    assert_eq!(msgs[1].role, Role::User);
    assert_eq!(msgs[1].content, "how do I sort a vec?");
}

#[test]
fn default_prompt_opens_as_expected() {
    let prompt = default_system_prompt();
    assert!(prompt.starts_with("\nYou are an expert software developer"));
    assert!(prompt.ends_with("the topic at hand."));
}
