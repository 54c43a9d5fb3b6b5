//! A menu that narrows a list of candidates as the user types.
//!
//! The heart of the library are the matchers. Each takes the text typed so
//! far and the candidates, and returns the candidates that match, best first:
//!
//! * `positional::simple_match` ranks by where the text first occurs;
//! * `tiered::dmenu_match` wants every word of the text and ranks by tiers;
//! * `fuzzy::fuzzy_match` scans each candidate for the characters of the
//!   text and scores how near they are to each other;
//! * `alignment::alignment_match` searches for the best alignment of the
//!   text inside each candidate.
//!
//! All of them order their result as `ranking` says, which `sorting`
//! computes. Around them stand the state of the menu and what a key press
//! does to it (`keys`, `editing`), what is to be drawn (`pager`), the
//! settings and the command line (`settings`, `options`, `number`), and the
//! file tests that fill the list of candidates (`filecheck`).

pub mod alignment;
pub mod editing;
pub mod filecheck;
pub mod fuzzy;
pub mod keys;
pub mod number;
pub mod occurrence;
pub mod options;
pub mod pager;
pub mod positional;
pub mod ranking;
pub mod scored;
pub mod settings;
pub mod sorting;
pub mod text;
pub mod tiered;

pub use alignment::alignment_match;
pub use fuzzy::fuzzy_match;
pub use positional::simple_match;
pub use tiered::dmenu_match;
