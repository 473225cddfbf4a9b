use qinfer_chat::state::ConversationState;
use qinfer_chat::state::Role;
use qinfer_chat::state::role_is_emphasized;
use qinfer_chat::state::role_label;

fn roles_and_contents(st: &ConversationState) -> Vec<(Role, String)> {
    st.messages.iter().map(|m| (m.role, m.content.clone())).collect()
}

#[test]
fn default_state_values() {
    let st = ConversationState::default();
    assert_eq!(st.messages.len(), 0);
    assert_eq!(st.draft_input, "");
    assert_eq!(st.system_prompt, "You are a helpful assistant.");
    assert_eq!(st.model, "gpt-4.1-mini");
    assert_eq!(st.temperature_milli, 700);
    assert_eq!(st.top_p_milli, 1000);
    assert_eq!(st.max_tokens, 512);
    assert_eq!(st.presence_penalty_milli, 0);
    assert_eq!(st.frequency_penalty_milli, 0);
    assert!(st.stream);
}

#[test]
fn send_trims_and_appends() {
    let mut st = ConversationState::default();
    st.set_draft_input(String::from("  hello  "));
    st.send("  hello  ");
    assert_eq!(st.messages.len(), 2);
    assert_eq!(st.messages[0].role, Role::User);
    assert_eq!(st.messages[0].content, "hello");
    assert_eq!(st.messages[1].role, Role::Assistant);
    assert_eq!(
        st.messages[1].content,
        "Awaiting inference. Wire a backend to replace this placeholder."
    );
    assert_eq!(st.draft_input, "");
}

#[test]
fn send_whitespace_is_a_noop() {
    let mut st = ConversationState::default();
    st.append_message(Role::User, String::from("earlier"));
    st.set_draft_input(String::from("   "));
    st.send("");
    st.send("   ");
    st.send(" \t\r\n ");
    assert_eq!(st.messages.len(), 1);
    assert_eq!(st.messages[0].content, "earlier");
    assert_eq!(st.draft_input, "   ");
}

#[test]
fn can_send_gates_on_trimmed_draft() {
    assert!(!ConversationState::can_send(""));
    assert!(!ConversationState::can_send("   "));
    assert!(!ConversationState::can_send(" \t\n"));
    assert!(ConversationState::can_send(" x "));
    assert!(ConversationState::can_send("hello"));
}

#[test]
fn clear_empties_transcript_and_keeps_settings() {
    let mut st = ConversationState::default();
    for i in 0..5 {
        st.append_message(Role::User, format!("message {i}"));
    }
    st.set_system_prompt(String::from("Be terse."));
    st.set_temperature_milli(1500);
    st.set_draft_input(String::from("half-typed"));
    assert_eq!(st.messages.len(), 5);
    st.clear();
    assert_eq!(st.messages.len(), 0);
    assert_eq!(st.system_prompt, "Be terse.");
    assert_eq!(st.temperature_milli, 1500);
    assert_eq!(st.top_p_milli, 1000);
    assert_eq!(st.max_tokens, 512);
    assert_eq!(st.draft_input, "half-typed");
}

#[test]
fn seed_demo_always_yields_three_messages() {
    let mut st = ConversationState::default();
    st.set_system_prompt(String::from("You plan sprints."));
    for i in 0..4 {
        st.append_message(Role::Assistant, format!("old {i}"));
    }
    st.seed_demo();
    let got = roles_and_contents(&st);
    assert_eq!(
        got,
        vec![
            (Role::System, String::from("You plan sprints.")),
            (
                Role::User,
                String::from("Summarize our weekly goals and turn them into a checklist."),
            ),
            (
                Role::Assistant,
                String::from("Sure. I will generate a concise summary and a checklist for review."),
            ),
        ]
    );
}

#[test]
fn seed_demo_on_fresh_state() {
    let mut st = ConversationState::default();
    st.seed_demo();
    assert_eq!(st.messages.len(), 3);
    assert_eq!(st.messages[0].role, Role::System);
    assert_eq!(st.messages[0].content, "You are a helpful assistant.");
}

#[test]
fn sliders_clamp_to_documented_ranges() {
    let mut st = ConversationState::default();
    st.set_temperature_milli(5000);
    assert_eq!(st.temperature_milli, 2000);
    st.set_temperature_milli(0);
    assert_eq!(st.temperature_milli, 0);
    st.set_top_p_milli(1500);
    assert_eq!(st.top_p_milli, 1000);
    st.set_max_tokens(0);
    assert_eq!(st.max_tokens, 1);
    st.set_max_tokens(100_000);
    assert_eq!(st.max_tokens, 8192);
    st.set_max_tokens(4096);
    assert_eq!(st.max_tokens, 4096);
    st.set_presence_penalty_milli(-9999);
    assert_eq!(st.presence_penalty_milli, -2000);
    st.set_presence_penalty_milli(9999);
    assert_eq!(st.presence_penalty_milli, 2000);
    st.set_frequency_penalty_milli(-150);
    assert_eq!(st.frequency_penalty_milli, -150);
    st.set_stream(false);
    assert!(!st.stream);
}

#[test]
fn append_message_accepts_any_text() {
    let mut st = ConversationState::default();
    st.append_message(Role::System, String::new());
    st.append_message(Role::User, String::from("a:b:c"));
    assert_eq!(st.messages.len(), 2);
    assert_eq!(st.messages[0].content, "");
    assert_eq!(st.messages[1].content, "a:b:c");
}

#[test]
fn role_labels_match_rendering() {
    assert_eq!(role_label(Role::System), "System");
    assert_eq!(role_label(Role::User), "You");
    assert_eq!(role_label(Role::Assistant), "Assistant");
    assert!(role_is_emphasized(Role::System));
    assert!(!role_is_emphasized(Role::User));
    assert!(!role_is_emphasized(Role::Assistant));
}
