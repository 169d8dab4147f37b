//! Client-side building blocks of an RDP session: the input state that
//! turns user intents into fast-path input events, and the codec of the
//! gateway negotiation message.

pub mod input;
pub mod negotiation;
