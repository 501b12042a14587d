//! Grouping and ordering of character records fetched from a paginated
//! people collection.
//!
//! Records are partitioned by gender, each partition is ordered by numeric
//! height first and by name for the records without a numeric height, and the
//! groups come out in ascending order of their gender text.  Every function
//! carries a contract over the mathematical content of the records
//! ([`models::Record`]), and the contracts are machine checked.
//!
//! - [`models`]: the records, pages and groups, and what they hold.
//! - [`fetch`]: which page to request next, and what has been collected.
//! - [`utils`]: the genders that occur, the records of one gender, the split
//!   by numeric height.
//! - [`sorter`]: the order within a group.
//! - [`pipeline`]: from all the records to the output groups.
//! - [`decimal`], [`text`]: reading a height as a number, and the order of
//!   names and genders.
//! - [`error`]: why a run is abandoned.
//!
//! A group is written out with its records whole, not reduced to name and
//! height.

pub mod decimal;
pub mod error;
pub mod fetch;
pub mod models;
pub mod pipeline;
pub mod sorter;
pub mod text;
pub mod utils;
