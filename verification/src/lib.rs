//! A small task-list library: an ordered store of named tasks tagged with a
//! lifecycle category, a stable category-priority ordering for display, and a
//! line-oriented text codec (`[Category] Name`) for persistence.

pub mod codec;
pub mod store;
