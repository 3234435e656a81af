//! An indexer for model assets.
//!
//! Below a root directory named `figure` lie characters, each with costumes,
//! each costume with a descriptor: a JSON file that names the animations and
//! expressions of the costume. This library decides which of the entries found
//! below the root are descriptors (`classify`), reads the capabilities out of
//! each (`parse`, on the documents of `json`), derives the costume and the
//! character from where the descriptor lies (`identity`, on the paths of
//! `paths`), and folds all of it into a catalog of characters (`catalog`).
//! `laws` states what holds of every scan. `games` lists the game folders of
//! an installation.
//!
//! The library touches no file. What a traversal found is handed to it as
//! plain values, content included, and every function says in its contract what
//! it returns for them.

pub mod text;
pub mod paths;
pub mod identity;
pub mod json;
pub mod parse;
pub mod classify;
pub mod catalog;
pub mod games;
pub mod laws;
