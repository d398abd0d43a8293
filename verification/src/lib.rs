//! Decides which Postgres backends are worth reaping, and reports on them.
pub mod clock;
pub mod criteria;
pub mod db;
pub mod report;
pub mod rounding;
pub mod run;
pub mod seconds;
pub mod text;
