//! Discrete-cycle simulation of a TCP sender's congestion window and
//! slow-start threshold under the Reno and Tahoe loss-response variants,
//! together with a semicolon-delimited text export of the resulting trace.

pub mod sim;
pub mod text;

pub use sim::{algorithm, Algorithm};
pub use text::to_csv;
