//! Meeting-capture logic: vault transcripts and Deepgram streaming decisions.
pub mod text;
pub mod slug;
pub mod yaml;
pub mod transcript;
pub mod clock;
pub mod vault;
pub mod deepgram;
pub mod session;
