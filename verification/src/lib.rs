//! A multi-lingual dictionary: a builder that turns raw lexicographic records
//! into hyperlinked, merged and dereferenced entries, a codec for the dump
//! those entries are stored in, and a store that answers lookups over it.

pub mod brackets;
pub mod builder;
pub mod codec;
pub mod dereference;
pub mod entry;
pub mod extract;
pub mod headwords;
pub mod hyperlink;
pub mod index;
pub mod language;
pub mod lemmas;
pub mod merge;
pub mod order;
pub mod record;
pub mod store;
pub mod text;
