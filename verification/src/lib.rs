//! A selectable ordered collection of ticket items.
//!
//! The heart of the crate is [`collection::Collection`]: an ordered sequence
//! of tickets, each carrying a boolean `selected` flag, together with a
//! single optional "anchor" index that represents a range selection in
//! progress.  Two clicks are turned into a normalized inclusive range, a
//! contiguous block of items is marked or unmarked, and the selected subset
//! can later be collapsed out of the collection while preserving the order
//! of the surviving items.
//!
//! [`feed`] mints the tickets themselves: a strictly increasing counter,
//! rendered as a zero-padded lowercase hexadecimal uid.  [`audit`] appends
//! minted tickets to a sequential SQLite log; the collection never reads
//! that log back.

pub mod audit;
pub mod collection;
pub mod feed;
