//! Query engine for a morphologically annotated corpus of Arabic texts:
//! normalization, query plans per search mode, positional highlights and
//! post-filters, chronological ordering and pagination, and the token cache.
pub mod text;
pub mod normalize;
pub mod wildcard;
pub mod positions;
pub mod plan;
pub mod results;
pub mod tokens;
pub mod manifest;
pub mod cache;
pub mod digest;
