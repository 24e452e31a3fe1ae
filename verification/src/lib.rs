//! A verified library for tracking job applications: records of company,
//! position, status, and a sorted list of interview dates, together with a
//! JSON codec for the persisted form of the whole collection.

pub mod codec;
pub mod date;
pub mod store;
pub mod text;
