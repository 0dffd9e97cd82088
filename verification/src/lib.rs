//! Keeping a Codex task's context within bounds: rollout cleaning and
//! summaries, message-format checks and repairs, passive capture analysis,
//! and the signed image gateway and relay rules.
pub mod digest;
pub mod gateway;
pub mod json;
pub mod message_format;
pub mod passive_capture;
pub mod relay;
pub mod rollout;
pub mod text;
