//! A windowed directory-listing engine: the verified core of an interactive,
//! keyboard-driven directory browser.
//!
//! The library owns the navigation state of the browser: the current path, a
//! growable directories-first buffer of child entries, a focus index into that
//! buffer, a per-path memory of the last focused child, and the breadcrumb
//! layout.  Reading directories from disk and drawing on the terminal are left
//! to the caller, which hands the library plain values (path segments and
//! child entries) and receives plain values back.

pub mod breadcrumb;
pub mod cursor;
pub mod entry;
pub mod memory;
pub mod navigator;
pub mod query;
pub mod viewport;

pub use breadcrumb::Draw;
pub use breadcrumb::anchor_for;
pub use breadcrumb::breadcrumb_draws;
pub use breadcrumb::grow_anchor;
pub use cursor::EntryCursor;
pub use entry::Entry;
pub use entry::EntryV;
pub use entry::clone_entries;
pub use entry::same_entry;
pub use memory::FocusMemory;
pub use memory::same_path;
pub use navigator::MoveIntoStep;
pub use navigator::Navigator;
pub use query::filter_exact;
pub use viewport::ListingLayout;
pub use viewport::listing_layout;
