//! Guaranteed matching depth between two populations whose members carry a
//! symmetric friendship relation.
//!
//! `city` holds one population and its relation, `links` a pairing between
//! two of them with its compatibility check, and `explore` the adversarial
//! search with the game value it computes.
pub mod city;
pub mod explore;
pub mod links;

pub use city::{City, MAX_SIZE};
pub use explore::explore;
pub use links::Links;
