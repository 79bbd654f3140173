//! Layout and patch algorithms of a desktop Git client: the commit graph,
//! line-level application of diff hunks, and the byte budget of diff loading.

pub mod commands;
pub mod crash_handler;
pub mod error;
pub mod git;
pub mod seqs;
pub mod text;
pub mod text_laws;
