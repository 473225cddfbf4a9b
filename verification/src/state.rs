//! The conversation state: transcript, draft, system prompt and sampling
//! configuration, with the operations the presentation layer invokes.

use vstd::prelude::*;

use crate::text::spec_trim;
use crate::text::trim;

verus! {

/// Who authored a message. A closed enumeration with no further state.
#[derive(Clone, Copy, PartialEq, Eq, Structural, Debug)]
pub enum Role {
    System,
    User,
    Assistant,
}

/// One transcript entry, immutable once appended.
#[derive(Clone, Debug)]
pub struct ChatMessage {
    pub role: Role,
    pub content: String,
}

/// The mathematical model of a message: its role and its character sequence.
#[verifier::ext_equal]
pub ghost struct MessageModel {
    pub role: Role,
    pub content: Seq<char>,
}

impl View for ChatMessage {
    type V = MessageModel;

    open spec fn view(&self) -> MessageModel {
        MessageModel { role: self.role, content: self.content@ }
    }
}

/// The mathematical model of the whole session state.
#[verifier::ext_equal]
pub ghost struct StateModel {
    pub messages: Seq<MessageModel>,
    pub draft_input: Seq<char>,
    pub system_prompt: Seq<char>,
    pub model: Seq<char>,
    pub temperature_milli: u32,
    pub top_p_milli: u32,
    pub max_tokens: u32,
    pub presence_penalty_milli: i32,
    pub frequency_penalty_milli: i32,
    pub stream: bool,
}

pub const TEMPERATURE_MILLI_MAX: u32 = 2000;

pub const TOP_P_MILLI_MAX: u32 = 1000;

pub const MAX_TOKENS_MIN: u32 = 1;

pub const MAX_TOKENS_MAX: u32 = 8192;

pub const PENALTY_MILLI_MIN: i32 = -2000;

pub const PENALTY_MILLI_MAX: i32 = 2000;

impl StateModel {
    /// Every numeric sampling field sits inside its documented range.
    pub open spec fn wf(self) -> bool {
        &&& self.temperature_milli <= TEMPERATURE_MILLI_MAX
        &&& self.top_p_milli <= TOP_P_MILLI_MAX
        &&& MAX_TOKENS_MIN <= self.max_tokens <= MAX_TOKENS_MAX
        &&& PENALTY_MILLI_MIN <= self.presence_penalty_milli <= PENALTY_MILLI_MAX
        &&& PENALTY_MILLI_MIN <= self.frequency_penalty_milli <= PENALTY_MILLI_MAX
    }
}

/// The default system prompt of a fresh session.
pub open spec fn default_system_prompt() -> Seq<char> {
    "You are a helpful assistant."@
}

/// The default model name of a fresh session.
pub open spec fn default_model_name() -> Seq<char> {
    "gpt-4.1-mini"@
}

/// The fixed reply appended in place of a real completion backend.
pub open spec fn assistant_placeholder() -> Seq<char> {
    "Awaiting inference. Wire a backend to replace this placeholder."@
}

/// The fixed user message of the seeded demo conversation.
pub open spec fn demo_user_message() -> Seq<char> {
    "Summarize our weekly goals and turn them into a checklist."@
}

/// The fixed assistant reply of the seeded demo conversation.
pub open spec fn demo_assistant_reply() -> Seq<char> {
    "Sure. I will generate a concise summary and a checklist for review."@
}

/// The documented default state: empty transcript, empty draft, default
/// prompt and model, temperature 0.7, top-p 1.0, 512 max tokens, both
/// penalties 0, streaming enabled. Temperatures, top-p and penalties are
/// held in thousandths so that the state stays in integers.
pub open spec fn default_state() -> StateModel {
    StateModel {
        messages: Seq::empty(),
        draft_input: Seq::empty(),
        system_prompt: default_system_prompt(),
        model: default_model_name(),
        temperature_milli: 700,
        top_p_milli: 1000,
        max_tokens: 512,
        presence_penalty_milli: 0,
        frequency_penalty_milli: 0,
        stream: true,
    }
}

pub proof fn lemma_default_state_wf()
    ensures
        default_state().wf(),
{
}

/// The whole mutable state of a chat session. Fractional sampling values are
/// held in thousandths (`temperature_milli == 700` stands for 0.7) so that
/// the documented ranges are exact integer bounds.
#[derive(Clone, Debug)]
pub struct ConversationState {
    pub messages: Vec<ChatMessage>,
    pub draft_input: String,
    pub system_prompt: String,
    pub model: String,
    pub temperature_milli: u32,
    pub top_p_milli: u32,
    pub max_tokens: u32,
    pub presence_penalty_milli: i32,
    pub frequency_penalty_milli: i32,
    pub stream: bool,
}

impl View for ConversationState {
    type V = StateModel;

    open spec fn view(&self) -> StateModel {
        StateModel {
            messages: self.messages@.map(|i: int, m: ChatMessage| m@),
            draft_input: self.draft_input@,
            system_prompt: self.system_prompt@,
            model: self.model@,
            temperature_milli: self.temperature_milli,
            top_p_milli: self.top_p_milli,
            max_tokens: self.max_tokens,
            presence_penalty_milli: self.presence_penalty_milli,
            frequency_penalty_milli: self.frequency_penalty_milli,
            stream: self.stream,
        }
    }
}

impl Default for ConversationState {
    /// A fresh session with the documented defaults.
    fn default() -> (s: Self)
        ensures
            s@ == default_state(),
    {
        let s = ConversationState {
            messages: Vec::new(),
            draft_input: String::new(),
            system_prompt: String::from_str("You are a helpful assistant."),
            model: String::from_str("gpt-4.1-mini"),
            temperature_milli: 700,
            top_p_milli: 1000,
            max_tokens: 512,
            presence_penalty_milli: 0,
            frequency_penalty_milli: 0,
            stream: true,
        };
        proof {
            assert(s@ =~~= default_state());
        }
        s
    }
}

impl ConversationState {
    /// Pushes a message to the end of the transcript; nothing else changes.
    pub fn append_message(&mut self, role: Role, content: String)
        ensures
            old(self)@.wf() ==> final(self)@.wf(),
            final(self)@ == (StateModel {
                messages: old(self)@.messages.push(MessageModel { role, content: content@ }),
                ..old(self)@
            }),
    {
        let ghost target = StateModel {
            messages: old(self)@.messages.push(MessageModel { role, content: content@ }),
            ..old(self)@
        };
        self.messages.push(ChatMessage { role, content });
        proof {
            assert(self@ =~~= target);
        }
    }

    /// Empties the transcript; draft, prompt and sampling settings keep
    /// their values.
    pub fn clear(&mut self)
        ensures
            old(self)@.wf() ==> final(self)@.wf(),
            final(self)@ == (StateModel { messages: Seq::empty(), ..old(self)@ }),
    {
        self.messages.clear();
        proof {
            assert(self@ =~~= (StateModel { messages: Seq::empty(), ..old(self)@ }));
        }
    }

    /// Whether the send action is enabled: the draft must hold something
    /// besides whitespace.
    pub fn can_send(current_draft: &str) -> (r: bool)
        ensures
            r == (spec_trim(current_draft@).len() > 0),
    {
        let trimmed = trim(current_draft);
        !trimmed.as_str().is_empty()
    }

    /// Sends a draft: appends the trimmed draft as a user message, clears the
    /// stored draft, and appends the fixed placeholder reply. A draft that is
    /// all whitespace leaves the state untouched.
    pub fn send(&mut self, current_draft: &str)
        ensures
            old(self)@.wf() ==> final(self)@.wf(),
            spec_trim(current_draft@).len() == 0 ==> final(self)@ == old(self)@,
            spec_trim(current_draft@).len() > 0 ==> final(self)@ == (StateModel {
                messages: old(self)@.messages.push(
                    MessageModel { role: Role::User, content: spec_trim(current_draft@) },
                ).push(
                    MessageModel { role: Role::Assistant, content: assistant_placeholder() },
                ),
                draft_input: Seq::empty(),
                ..old(self)@
            }),
    {
        let trimmed = trim(current_draft);
        if !trimmed.as_str().is_empty() {
            let ghost target = StateModel {
                messages: old(self)@.messages.push(
                    MessageModel { role: Role::User, content: spec_trim(current_draft@) },
                ).push(
                    MessageModel { role: Role::Assistant, content: assistant_placeholder() },
                ),
                draft_input: Seq::empty(),
                ..old(self)@
            };
            self.messages.push(ChatMessage { role: Role::User, content: trimmed });
            self.draft_input = String::new();
            self.messages.push(ChatMessage {
                role: Role::Assistant,
                content: String::from_str(
                    "Awaiting inference. Wire a backend to replace this placeholder.",
                ),
            });
            proof {
                assert(self@ =~~= target);
            }
        }
    }

    /// Empties the transcript and seeds the fixed demo conversation: the
    /// current system prompt, the demo question, the demo reply.
    pub fn seed_demo(&mut self)
        ensures
            old(self)@.wf() ==> final(self)@.wf(),
            final(self)@ == (StateModel {
                messages: seq![
                    MessageModel { role: Role::System, content: old(self)@.system_prompt },
                    MessageModel { role: Role::User, content: demo_user_message() },
                    MessageModel { role: Role::Assistant, content: demo_assistant_reply() },
                ],
                ..old(self)@
            }),
    {
        let ghost target = StateModel {
            messages: seq![
                MessageModel { role: Role::System, content: old(self)@.system_prompt },
                MessageModel { role: Role::User, content: demo_user_message() },
                MessageModel { role: Role::Assistant, content: demo_assistant_reply() },
            ],
            ..old(self)@
        };
        let prompt = self.system_prompt.clone();
        self.messages.clear();
        self.messages.push(ChatMessage { role: Role::System, content: prompt });
        self.messages.push(ChatMessage {
            role: Role::User,
            content: String::from_str("Summarize our weekly goals and turn them into a checklist."),
        });
        self.messages.push(ChatMessage {
            role: Role::Assistant,
            content: String::from_str(
                "Sure. I will generate a concise summary and a checklist for review.",
            ),
        });
        proof {
            assert(self@ =~~= target);
        }
    }

    /// Replaces the stored draft with what the composer holds.
    pub fn set_draft_input(&mut self, text: String)
        ensures
            old(self)@.wf() ==> final(self)@.wf(),
            final(self)@ == (StateModel { draft_input: text@, ..old(self)@ }),
    {
        self.draft_input = text;
        proof {
            assert(self@ =~~= (StateModel { draft_input: text@, ..old(self)@ }));
        }
    }

    /// Replaces the system prompt.
    pub fn set_system_prompt(&mut self, text: String)
        ensures
            old(self)@.wf() ==> final(self)@.wf(),
            final(self)@ == (StateModel { system_prompt: text@, ..old(self)@ }),
    {
        self.system_prompt = text;
        proof {
            assert(self@ =~~= (StateModel { system_prompt: text@, ..old(self)@ }));
        }
    }

    /// Replaces the model name.
    pub fn set_model(&mut self, text: String)
        ensures
            old(self)@.wf() ==> final(self)@.wf(),
            final(self)@ == (StateModel { model: text@, ..old(self)@ }),
    {
        self.model = text;
        proof {
            assert(self@ =~~= (StateModel { model: text@, ..old(self)@ }));
        }
    }

    /// Sets the temperature, clamped into its documented range.
    pub fn set_temperature_milli(&mut self, v: u32)
        ensures
            old(self)@.wf() ==> final(self)@.wf(),
            final(self)@ == (StateModel {
                temperature_milli: clamp_u32(v, 0, TEMPERATURE_MILLI_MAX),
                ..old(self)@
            }),
            final(self)@.temperature_milli <= TEMPERATURE_MILLI_MAX,
    {
        self.temperature_milli = clamp_u32_exec(v, 0, TEMPERATURE_MILLI_MAX);
        proof {
            assert(self@ =~~= (StateModel {
                temperature_milli: clamp_u32(v, 0, TEMPERATURE_MILLI_MAX),
                ..old(self)@
            }));
        }
    }

    /// Sets top-p, clamped into its documented range.
    pub fn set_top_p_milli(&mut self, v: u32)
        ensures
            old(self)@.wf() ==> final(self)@.wf(),
            final(self)@ == (StateModel {
                top_p_milli: clamp_u32(v, 0, TOP_P_MILLI_MAX),
                ..old(self)@
            }),
            final(self)@.top_p_milli <= TOP_P_MILLI_MAX,
    {
        self.top_p_milli = clamp_u32_exec(v, 0, TOP_P_MILLI_MAX);
        proof {
            assert(self@ =~~= (StateModel {
                top_p_milli: clamp_u32(v, 0, TOP_P_MILLI_MAX),
                ..old(self)@
            }));
        }
    }

    /// Sets the token budget, clamped into its documented range.
    pub fn set_max_tokens(&mut self, v: u32)
        ensures
            old(self)@.wf() ==> final(self)@.wf(),
            final(self)@ == (StateModel {
                max_tokens: clamp_u32(v, MAX_TOKENS_MIN, MAX_TOKENS_MAX),
                ..old(self)@
            }),
            MAX_TOKENS_MIN <= final(self)@.max_tokens <= MAX_TOKENS_MAX,
    {
        self.max_tokens = clamp_u32_exec(v, MAX_TOKENS_MIN, MAX_TOKENS_MAX);
        proof {
            assert(self@ =~~= (StateModel {
                max_tokens: clamp_u32(v, MAX_TOKENS_MIN, MAX_TOKENS_MAX),
                ..old(self)@
            }));
        }
    }

    /// Sets the presence penalty, clamped into its documented range.
    pub fn set_presence_penalty_milli(&mut self, v: i32)
        ensures
            old(self)@.wf() ==> final(self)@.wf(),
            final(self)@ == (StateModel {
                presence_penalty_milli: clamp_i32(v, PENALTY_MILLI_MIN, PENALTY_MILLI_MAX),
                ..old(self)@
            }),
            PENALTY_MILLI_MIN <= final(self)@.presence_penalty_milli <= PENALTY_MILLI_MAX,
    {
        self.presence_penalty_milli = clamp_i32_exec(v, PENALTY_MILLI_MIN, PENALTY_MILLI_MAX);
        proof {
            assert(self@ =~~= (StateModel {
                presence_penalty_milli: clamp_i32(v, PENALTY_MILLI_MIN, PENALTY_MILLI_MAX),
                ..old(self)@
            }));
        }
    }

    /// Sets the frequency penalty, clamped into its documented range.
    pub fn set_frequency_penalty_milli(&mut self, v: i32)
        ensures
            old(self)@.wf() ==> final(self)@.wf(),
            final(self)@ == (StateModel {
                frequency_penalty_milli: clamp_i32(v, PENALTY_MILLI_MIN, PENALTY_MILLI_MAX),
                ..old(self)@
            }),
            PENALTY_MILLI_MIN <= final(self)@.frequency_penalty_milli <= PENALTY_MILLI_MAX,
    {
        self.frequency_penalty_milli = clamp_i32_exec(v, PENALTY_MILLI_MIN, PENALTY_MILLI_MAX);
        proof {
            assert(self@ =~~= (StateModel {
                frequency_penalty_milli: clamp_i32(v, PENALTY_MILLI_MIN, PENALTY_MILLI_MAX),
                ..old(self)@
            }));
        }
    }

    /// Switches streaming on or off.
    pub fn set_stream(&mut self, v: bool)
        ensures
            old(self)@.wf() ==> final(self)@.wf(),
            final(self)@ == (StateModel { stream: v, ..old(self)@ }),
    {
        self.stream = v;
        proof {
            assert(self@ =~~= (StateModel { stream: v, ..old(self)@ }));
        }
    }
}

/// `v` forced into `[lo, hi]`.
pub open spec fn clamp_u32(v: u32, lo: u32, hi: u32) -> u32 {
    if v < lo {
        lo
    } else if v > hi {
        hi
    } else {
        v
    }
}

/// `v` forced into `[lo, hi]`.
pub open spec fn clamp_i32(v: i32, lo: i32, hi: i32) -> i32 {
    if v < lo {
        lo
    } else if v > hi {
        hi
    } else {
        v
    }
}

fn clamp_u32_exec(v: u32, lo: u32, hi: u32) -> (r: u32)
    ensures
        r == clamp_u32(v, lo, hi),
{
    if v < lo {
        lo
    } else if v > hi {
        hi
    } else {
        v
    }
}

fn clamp_i32_exec(v: i32, lo: i32, hi: i32) -> (r: i32)
    ensures
        r == clamp_i32(v, lo, hi),
{
    if v < lo {
        lo
    } else if v > hi {
        hi
    } else {
        v
    }
}

/// Every operation preserves well-formedness: none of them writes a numeric
/// sampling field, except the clamping setters, which write values inside
/// the documented ranges whatever their argument.
pub proof fn lemma_clamp_preserves_wf(st: StateModel, v: u32, w: i32)
    requires
        st.wf(),
    ensures
        (StateModel { temperature_milli: clamp_u32(v, 0, TEMPERATURE_MILLI_MAX), ..st }).wf(),
        (StateModel { top_p_milli: clamp_u32(v, 0, TOP_P_MILLI_MAX), ..st }).wf(),
        (StateModel { max_tokens: clamp_u32(v, MAX_TOKENS_MIN, MAX_TOKENS_MAX), ..st }).wf(),
        (StateModel {
            presence_penalty_milli: clamp_i32(w, PENALTY_MILLI_MIN, PENALTY_MILLI_MAX),
            ..st
        }).wf(),
        (StateModel {
            frequency_penalty_milli: clamp_i32(w, PENALTY_MILLI_MIN, PENALTY_MILLI_MAX),
            ..st
        }).wf(),
{
}

/// The label the transcript shows beside a message of the given role.
pub open spec fn spec_role_label(r: Role) -> Seq<char> {
    match r {
        Role::System => "System"@,
        Role::User => "You"@,
        Role::Assistant => "Assistant"@,
    }
}

/// The label shown beside a message bubble.
pub fn role_label(r: Role) -> (s: &'static str)
    ensures
        s@ == spec_role_label(r),
{
    match r {
        Role::System => "System",
        Role::User => "You",
        Role::Assistant => "Assistant",
    }
}

/// Whether a message of this role is rendered in the emphasized style.
pub fn role_is_emphasized(r: Role) -> (b: bool)
    ensures
        b == (r == Role::System),
{
    match r {
        Role::System => true,
        Role::User => false,
        Role::Assistant => false,
    }
}

} // verus!
