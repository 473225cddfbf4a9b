use qinfer_chat::state::ConversationState;
use qinfer_chat::state::Role;

fn assert_states_equal(a: &ConversationState, b: &ConversationState) {
    assert_eq!(a.messages.len(), b.messages.len());
    for (x, y) in a.messages.iter().zip(b.messages.iter()) {
        assert_eq!(x.role, y.role);
        assert_eq!(x.content, y.content);
    }
    assert_eq!(a.draft_input, b.draft_input);
    assert_eq!(a.system_prompt, b.system_prompt);
    assert_eq!(a.model, b.model);
    assert_eq!(a.temperature_milli, b.temperature_milli);
    assert_eq!(a.top_p_milli, b.top_p_milli);
    assert_eq!(a.max_tokens, b.max_tokens);
    assert_eq!(a.presence_penalty_milli, b.presence_penalty_milli);
    assert_eq!(a.frequency_penalty_milli, b.frequency_penalty_milli);
    assert_eq!(a.stream, b.stream);
}

#[test]
fn snapshot_of_default_state_is_exact() {
    let st = ConversationState::default();
    let snap = st.to_snapshot();
    let expected = "draft:0:\
system_prompt:28:You are a helpful assistant.\
model:12:gpt-4.1-mini\
temperature:3:700\
top_p:4:1000\
max_tokens:3:512\
presence_penalty:4:2000\
frequency_penalty:4:2000\
stream:1:1";
    assert_eq!(snap, expected);
}

#[test]
fn round_trip_recovers_every_field() {
    let mut st = ConversationState::default();
    st.append_message(Role::System, String::from("stay close to: the data"));
    st.append_message(Role::User, String::from("first\nsecond line"));
    st.append_message(Role::Assistant, String::from("réponse ∆ 🙂"));
    st.set_draft_input(String::from("  unsent : draft  "));
    st.set_system_prompt(String::from("You are blunt."));
    st.set_model(String::from("some-model:v2"));
    st.set_temperature_milli(1250);
    st.set_top_p_milli(450);
    st.set_max_tokens(33);
    st.set_presence_penalty_milli(-700);
    st.set_frequency_penalty_milli(2000);
    st.set_stream(false);
    let snap = st.to_snapshot();
    let back = ConversationState::from_snapshot(&snap);
    assert_states_equal(&st, &back);
}

#[test]
fn round_trip_of_empty_strings() {
    let mut st = ConversationState::default();
    st.set_system_prompt(String::new());
    st.set_model(String::new());
    st.append_message(Role::User, String::new());
    let snap = st.to_snapshot();
    let back = ConversationState::from_snapshot(&snap);
    assert_states_equal(&st, &back);
}

#[test]
fn empty_snapshot_decodes_to_defaults() {
    let st = ConversationState::from_snapshot("");
    assert_states_equal(&st, &ConversationState::default());
}

#[test]
fn unknown_records_are_ignored() {
    let st = ConversationState::from_snapshot("future_field:3:abcdraft:2:hi");
    assert_eq!(st.draft_input, "hi");
    let defaults = ConversationState::default();
    assert_eq!(st.system_prompt, defaults.system_prompt);
    assert_eq!(st.temperature_milli, defaults.temperature_milli);
    assert_eq!(st.messages.len(), 0);
}

#[test]
fn missing_fields_take_defaults() {
    let st = ConversationState::from_snapshot("model:4:test");
    assert_eq!(st.model, "test");
    assert_eq!(st.system_prompt, "You are a helpful assistant.");
    assert_eq!(st.temperature_milli, 700);
    assert_eq!(st.top_p_milli, 1000);
    assert_eq!(st.max_tokens, 512);
    assert!(st.stream);
}

#[test]
fn malformed_tail_keeps_what_was_read() {
    let st = ConversationState::from_snapshot("draft:2:hi###garbage without separators");
    assert_eq!(st.draft_input, "hi");
    let st2 = ConversationState::from_snapshot("draft:2:hitemperature:999999999999999999999:x");
    assert_eq!(st2.draft_input, "hi");
    assert_eq!(st2.temperature_milli, 700);
    let st3 = ConversationState::from_snapshot("draft:9:short");
    assert_eq!(st3.draft_input, "");
}

#[test]
fn out_of_range_values_keep_defaults() {
    let st = ConversationState::from_snapshot("temperature:4:9999");
    assert_eq!(st.temperature_milli, 700);
    let st2 = ConversationState::from_snapshot("max_tokens:1:0");
    assert_eq!(st2.max_tokens, 512);
    let st3 = ConversationState::from_snapshot("temperature:2:-5");
    assert_eq!(st3.temperature_milli, 700);
    let st4 = ConversationState::from_snapshot("stream:3:yes");
    assert!(st4.stream);
    let st5 = ConversationState::from_snapshot("stream:1:0");
    assert!(!st5.stream);
}

#[test]
fn messages_decode_in_order() {
    let st = ConversationState::from_snapshot(
        "msg.user:3:onemsg.assistant:3:twomsg.system:5:three",
    );
    assert_eq!(st.messages.len(), 3);
    assert_eq!(st.messages[0].role, Role::User);
    assert_eq!(st.messages[0].content, "one");
    assert_eq!(st.messages[1].role, Role::Assistant);
    assert_eq!(st.messages[1].content, "two");
    assert_eq!(st.messages[2].role, Role::System);
    assert_eq!(st.messages[2].content, "three");
}

#[test]
fn payload_length_counts_characters_not_bytes() {
    let mut st = ConversationState::default();
    st.set_model(String::from("héllo"));
    let snap = st.to_snapshot();
    assert!(snap.contains("model:5:héllo"));
    let back = ConversationState::from_snapshot(&snap);
    assert_eq!(back.model, "héllo");
}

#[test]
fn initialize_uses_stored_snapshot_or_defaults() {
    let fresh = ConversationState::initialize(None);
    assert_states_equal(&fresh, &ConversationState::default());

    let mut st = ConversationState::default();
    st.append_message(Role::User, String::from("kept"));
    st.set_stream(false);
    let snap = st.to_snapshot();
    let loaded = ConversationState::initialize(Some(snap));
    assert_states_equal(&loaded, &st);

    let garbage = ConversationState::initialize(Some(String::from("not a snapshot")));
    assert_states_equal(&garbage, &ConversationState::default());
}
