//! A small chat-session library: a token-budgeted history window over an
//! append-only conversation log, a text codec for persisting that log, and
//! the decision logic of one prompt/response exchange.

pub mod entry;
pub mod window;
pub mod codec;
pub mod session;
