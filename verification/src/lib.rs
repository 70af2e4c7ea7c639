//! The content pipeline of a static blog generator: reading a post's first
//! line, dates and their order, rendering mathematics, converting markup,
//! and arranging the posts into pages, lists and a feed.

pub mod date;
pub mod entry;
pub mod markup;
pub mod math;
pub mod metadata;
pub mod site;
pub mod text;
