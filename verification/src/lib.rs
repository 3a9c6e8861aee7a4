//! Sliding-window analysis of chat logs that are kept as one partition for each day.
//!
//! The library parses partitions into messages without copying their text, keeps an
//! index of the partitions of an archive, decides what to read or fetch under each
//! caching policy, walks windows over a range of time, and counts the tokens of each
//! window. It reads no file and opens no connection: a caller implements
//! [`chatlog::DailyChatLog`] to hand it the text of a day.

pub mod calendar;
pub mod chatlog;
pub mod counts;
pub mod emote_index;
pub mod message;
pub mod overrustle;
pub mod stats;
pub mod text;
pub mod util;
pub mod window;
