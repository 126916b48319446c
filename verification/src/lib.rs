//! The core of a multi-room chat server.
//!
//! - `wire`: the layout of a frame, with the laws of round trip and of
//!   resumability;
//! - `message`: the message of one frame;
//! - `transfer`: what a non-blocking source or sink answers to one attempt;
//! - `reader`, `writer`: decoding and encoding one frame in pieces;
//! - `client`: a connection, with its frame under way and its queue;
//! - `chat_room`: the members of a room and the fan-out between them;
//! - `room_manager`: which names have a room, and the bound on their number;
//! - `work_token`: the cancellation token.

pub mod chat_room;
pub mod client;
pub mod message;
pub mod reader;
pub mod room_manager;
pub mod transfer;
pub mod wire;
pub mod work_token;
pub mod writer;
