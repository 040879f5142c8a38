//! A spaced-repetition core for a vocabulary trainer: a record store of
//! term/translation cards, two interchangeable review schedulers (a
//! Leitner-box scheduler driven by review dates and a frequency-weighted
//! selector driven by past success), a quiz session runner, and a verified
//! text codec for the persisted collection.  Everything that decides or
//! computes lives here under contracts; prompting, files and the command line
//! stay outside.

pub mod clock;
pub mod codec;
pub mod dedup;
pub mod errors;
pub mod frequency;
pub mod models;
pub mod order;
pub mod quiz;
pub mod scheduler;
pub mod seed;
pub mod srs;
