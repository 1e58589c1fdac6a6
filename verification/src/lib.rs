//! Documentation and tags for Nix source files.
//!
//! A definition in a Nix file is documented by the comments that stand in
//! front of it. This library finds those comments in the syntax tree of a
//! file and cleans them up (`locate`, `comment`), searches the documented
//! functions of a file by name (`search`, `report`), and lists the
//! definitions of many files as a tag index for an editor (`tags`, `index`,
//! `scan`, `discovery`). Files are parsed by `rnix` (`parse`, `syntax`),
//! after a look at their tokens (`tokens`).
//!
//! The library reads no files and starts no threads: it is handed the text
//! of a file, and it keeps the queue of a pool of workers (`threadpool`)
//! without running them.

pub mod comment;
pub mod discovery;
pub mod entry;
pub mod idempotence;
pub mod index;
pub mod locate;
pub mod parse;
pub mod paths;
pub mod pattern;
pub mod position;
pub mod report;
pub mod scan;
pub mod search;
pub mod sort;
pub mod style;
pub mod syntax;
pub mod tag;
pub mod tags;
pub mod text;
pub mod threadpool;
pub mod tokens;
