//! Itinerary search over a time-expanded graph of scheduled flights.

pub mod time;
pub mod flight;
pub mod airport;
pub mod text;
pub mod search;
pub mod import;
