//! Where data lives, and how it is fetched.

pub mod page_fetcher;
pub mod tiered;
