//! Verified core of the Nabla operator card game: the card set and its byte
//! encoding, deck composition, game settings, the symbolic-expression data
//! model, the click-id vocabulary, the turn phases a click moves through, the
//! end-of-turn cleanup, the online-match session, the move and match logs, and
//! the hard rules and scoring of the AI opponent.

pub mod game;
pub mod util;
pub mod math;
pub mod basis;
pub mod events;
pub mod render;
