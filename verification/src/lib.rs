//! Judgment: a trick-taking card game for several seats, with the rooms and
//! the registry that let many clients drive one game each.

pub mod card;
pub mod credential;
pub mod deck;
pub mod errors;
pub mod game;
pub mod laws;
pub mod model;
pub mod player;
pub mod room;
pub mod server;
pub mod watch;

pub use card::{card_comparator, trick_card_comparator, Card, Rank, Suit};
pub use credential::{AuthenticatedPlayer, RoomId};
pub use errors::InvalidTransition;
pub use game::{Judgment, StateUpdate, Trick};
pub use model::Transition;
pub use room::{Action, Claims, Room};
pub use server::Server;
