//! Conversation state for a small desktop chat window.
//!
//! The crate owns the whole mutable state of a chat session: the transcript of
//! role-tagged messages, the draft the user is composing, the system prompt,
//! and the sampling configuration. Every operation the presentation layer
//! invokes — sending a draft, clearing the transcript, seeding a demo
//! conversation, clamping a slider value — is a verified function with a
//! contract over a mathematical model of the state. The snapshot module gives
//! the state a self-describing textual encoding whose decoder is total and
//! recovers any encoded state exactly.

pub mod snapshot;
pub mod state;
pub mod text;
