//! Extraction of unique `@mentions` and `#hashtags` from social-media text.
pub mod mentions_hashtags;
