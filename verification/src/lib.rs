//! A small blog engine: posts written in Markdown, a single-author login
//! guarded by a time-based one-time password, and an in-memory session store.

pub mod auth;
pub mod blog;
pub mod models;
pub mod session;

pub use blog::get_posts;
