//! Commit-message generation: reading git's output, ranking and budgeting
//! the staged diff, detecting the scope, building the prompt, judging the
//! providers' replies, filtering and cleaning the model's output, and the
//! settings and decisions of a run.

pub mod text;
pub mod token;
pub mod unixpath;
pub mod git;
pub mod diff;
pub mod scope;
pub mod prompt;
pub mod config;
pub mod ui;
pub mod llm;
pub mod flow;
pub mod setup;
