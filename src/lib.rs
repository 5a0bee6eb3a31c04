//! Content model of a tag-indexed social store: posts, comments and votes,
//! a deduplicating anchor index, a boolean tag search, and the ownership and
//! uniqueness rules that every write is validated against.

pub mod anchors;
pub mod comments;
pub mod laws;
pub mod posts;
pub mod search;
pub mod store;
pub mod text;
pub mod types;
pub mod validation;
pub mod votes;

pub use posts::PostTags;
pub use search::{search_placements, Search, SearchResult};
pub use store::{Link, LinkKind, Record, Status, Store, StoreError};
pub use text::{parse_tag, tag_text};
pub use types::{Address, Anchor, Comment, Entry, Fraction, Post, Tag, Vote, FRACTION_SCALE};
pub use validation::{validate_create, validate_delete, validate_modify, Rejection};
