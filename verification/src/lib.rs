//! Core of a turn-based card-shedding match ("Skit Gubbe"): deck dealing,
//! per-player card-state rules, move legality, stack-clearing combinators,
//! win and draw detection, and the wire codec for the message types.
//!
//! Transport, the admission queue and process bootstrap are outside this
//! crate: callers feed decoded actions in and carry encoded snapshots out.

pub mod api;
pub mod codec;
pub mod deck;
pub mod game;
pub mod playercards;
