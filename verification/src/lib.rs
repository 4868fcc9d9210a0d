//! Query locally installed SDK records: parse a JSON listing, fuzzy-match a
//! name by trigram similarity, and resolve the matching SDK's path.
//!
//! The crate is organised around one record type and one pipeline. `record`
//! holds the SDK record and its display rules; `parse` turns the external
//! enumerator's JSON text into records; `order` sorts records by display
//! name or build id and collapses duplicate build ids; `similarity` scores
//! a record's display name against a query by trigram overlap; `select`
//! picks the best match, resolves its path and chooses the action to take;
//! `table` renders the listing.

pub mod order;
pub mod parse;
pub mod record;
pub mod select;
pub mod similarity;
pub mod table;

