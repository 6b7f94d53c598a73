//! Verified core of a downloader for the anime site jut.su: extraction of
//! catalogue entries, episode links and video sources from the site's HTML,
//! the menu and prompt logic, and the plan that spreads downloads over threads.

pub mod text;
pub mod parser;
pub mod downloader;
pub mod crawl;
pub mod input;
pub mod ui;
pub mod cache;
