//! Fetched records, their cleaning, and the Toon dataset format.

pub mod fetcher;
pub mod cleaner;
pub mod toon;
pub mod etl;
