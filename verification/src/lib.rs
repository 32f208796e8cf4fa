//! Finds factorials in text, calculates them, and writes the reply.
//!
//! A text is searched for numbers followed by exclamation marks
//! (`extractor`). Each number is treated by its size (`tier`): its factorial
//! is calculated exactly (`math`, on the integers of `integer`), or taken
//! from an approximation that the caller supplies. The results are listed
//! and written as a reply that keeps within a size (`reddit_comment`);
//! `factorial` holds records and lines for numbers of any size, and
//! `discord_api` decides which messages get a reply and lays it out.
//! `text` and `scan` hold what these share for writing and reading
//! characters.

pub mod discord_api;
pub mod extractor;
pub mod factorial;
pub mod integer;
pub mod math;
pub mod reddit_comment;
pub mod scan;
pub mod text;
pub mod tier;
