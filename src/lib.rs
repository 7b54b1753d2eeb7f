//! Daily revenue, hours and overtime tracking: the record model, the table
//! of records keyed by date, and the monthly aggregation.
//!
//! Amounts (revenue, hours, overtime) are fixed-point values counted in
//! hundredths of a unit, so that sums are exact.
pub mod date;
pub mod ca;
pub mod table;
pub mod laws;
pub mod month;
