//! Locates `bin` directories for a named package beneath a set of search
//! roots and decides how a shell startup file should be amended so that a
//! chosen directory lands on `PATH`.
//!
//! Paths, file names and file contents are modelled as byte vectors: file
//! names on the platforms this tool targets are byte strings, and the shell
//! startup file is mutated as plain bytes. The surrounding binary performs
//! the actual directory walk, console dialogue and file writes; everything
//! that decides (pruning, matching, deduplication, shell resolution,
//! selection parsing, the append-or-skip choice) lives here.

pub mod config;
pub mod paths;
pub mod scan;
pub mod text;
