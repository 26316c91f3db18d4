//! A frecency-ranked index of visited directories.
//!
//! The store maps a lowercased path to a rank and a last-access time.
//! Visits raise a rank, a global aging pass keeps the ranks bounded, and
//! a query of ordered tokens selects the best-scoring matching path.
//! Paths are lowercased both when they are stored and when they are
//! matched, so lookups never depend on case.
pub mod matcher;
pub mod record;
pub mod scorer;
pub mod shell;
pub mod store;
pub mod text;

pub use matcher::{build_pattern, Pattern};
pub use record::{parse_line, Entry, LineError};
pub use scorer::{outranks, AGING_THRESHOLD, MAX_RANK, UNIT};
pub use shell::{append_line, contains_line, Shell};
pub use store::{ImportError, Store};
