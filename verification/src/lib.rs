//! Log-address frequency analysis.
//!
//! The library scans lines of text for the first IPv4-shaped token on each
//! line, counts how often each distinct token occurs, and ranks the tokens
//! by frequency. All logic is verified; reading the input and writing the
//! report are left to the surrounding program.

pub mod bytes;
pub mod extract;
pub mod table;
pub mod scan;
pub mod rank;
pub mod report;

pub use extract::extract;
pub use table::FrequencyTable;
pub use scan::scan_lines;
pub use report::{render_report, render_row};
