//! A sliding-window rate limiter.
//!
//! The limiter keeps the timestamps of recently admitted events and, for each
//! new event, decides whether admitting it would exceed the configured
//! maximum within the trailing time window.

pub mod message;
