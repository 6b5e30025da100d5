//! Small text tools with proved behaviour: a binary-to-decimal converter, a
//! word-frequency counter, and a collection of notes kept as JSON.

pub mod binary;
pub mod notes;
pub mod words;
