//! Depth-first, pre-order directory walker driven one directory at a time.
//!
//! The walker never touches the filesystem itself. Each step is split in two:
//! `advance` chooses the next directory to visit and positions the current
//! path on it; the caller lists that directory and hands the listing to
//! `expand`, which records the subdirectories for later visits and returns the
//! directory's own files.
pub mod laws;
pub mod model;
pub mod walk;
