//! A registry of pastes: slugs derived from identifiers by a positional
//! codec, custom URLs that share the slug namespace, and lazy expiration.

pub mod auth;
pub mod codec;
pub mod paste;
pub mod registry;
