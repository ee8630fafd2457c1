//! Reconstruction of a flight itinerary from its unordered segments.

pub mod api;
pub mod decode;
pub mod error;
pub mod laws;
pub mod quoting;
pub mod route;
pub mod segment;
pub mod value;

pub use crate::api::{js_itinerary_sort, js_itinerary_termini};
pub use crate::error::{ItineraryError, ShapeProblem};
pub use crate::quoting::{single_quotes, standard_quotes};
pub use crate::route::itinerary_sort;
pub use crate::value::{Value, ValueView};
