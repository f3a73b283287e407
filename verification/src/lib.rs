//! A personal bookmark store: records of (name, URL, tags) kept in a flat,
//! human-editable text file, with verified encoding, decoding, querying and
//! positional mutation.

pub mod codec;
pub mod query;
pub mod record;
pub mod store;

pub use record::Bookmark;
pub use record::BookmarkView;
