//! Derives the next semantic version of a repository from its released
//! tags and the commits that follow the latest release: the highest
//! tagged version is the base, each unreleased commit message is
//! classified against bump markers, the signals are folded into one
//! aggregate, and the aggregate is resolved into the next version — or
//! into a build-metadata counter when commits exist but none carries a
//! marker.

pub mod aggregate;
pub mod classify;
pub mod numerals;
pub mod order;
pub mod parse;
pub mod resolve;
pub mod scanner;
pub mod version;
