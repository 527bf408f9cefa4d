//! Round-based public transit routing over a timetable packed into flat arrays.
//!
//! - `time` holds the time stamps of the engine, `timestamp` the times of day as a feed
//!   writes them.
//! - `shared` holds the timetable as flat arrays, and what it means that they are well
//!   formed.
//! - `data` and `assemble` build the arrays from the rows of a timetable; `layout` shows
//!   that what they build is well formed.
//! - `rounds` says what a query computes, `engine` computes it, and `itinerary` follows the
//!   connections of an answer back to a journey.
//! - `journey`, `scanning`, `walking` and `guarantees` show what holds of every answer.
//! - `report` and `request` prepare answers and requests for a search page.

pub mod assemble;
pub mod data;
pub mod engine;
pub mod guarantees;
pub mod itinerary;
pub mod journey;
pub mod layout;
pub mod packing;
pub mod report;
pub mod request;
pub mod rounds;
pub mod scanning;
pub mod shared;
pub mod text;
pub mod time;
pub mod timestamp;
pub mod walking;

pub use crate::assemble::{assemble_raptor_data, setup_raptor, RaptorDataSet};
pub use crate::data::{get_routes, get_stops, GetRoutesReturn, GetStopsReturn, PartialStop};
pub use crate::engine::{query, raptor, QueryResult};
pub use crate::itinerary::{journey_in_round, reconstruct, Step};
pub use crate::rounds::Connection;
pub use crate::shared::{Route, RoutesData, Stop, StopTime, StopsData, Transfer};
pub use crate::time::Time;
pub use crate::timestamp::ParseTimeError;
