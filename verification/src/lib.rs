//! A UI-independent application-launcher library: desktop-entry data,
//! command-line splitting, fuzzy ranking and launcher state.

pub mod app_core;
pub mod selection;
