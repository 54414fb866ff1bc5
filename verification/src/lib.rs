//! Connectivity analysis over a set of trading cards.
//!
//! A card carries five numeric attributes; two cards are *connected* when
//! exactly one attribute position matches. For every card in a set, the
//! library computes its direct connections and their connections in turn,
//! and renders the result as an indented three-level forest.

pub mod card;
pub mod card_set;
pub mod forest;
pub mod render;

pub use card::Card;
pub use card_set::CardSet;
pub use forest::Forest;
pub use forest::build;
pub use render::check_connect;
pub use render::render;
