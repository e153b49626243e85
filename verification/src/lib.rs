//! Dexopt status analysis: parsing of package listings and dexopt dumps,
//! label selection, and the per-package report built from them.
//!
//! - `text`: whitespace, trimming, lines, searching and ordering of texts.
//! - `byte_order`: the order of texts is the order of their UTF-8 bytes.
//! - `package`: package records and the parser of package listings.
//! - `dexopt`: compilation records and the parser of dexopt dumps.
//! - `label`: the choice of a package's label.
//! - `report`: packages joined with records and labels, and the tally.
//! - `layout`: the arithmetic of the printed report.
//! - `pattern`, `std_contracts`: the contracts under which code from
//!   outside is called.

pub mod byte_order;
pub mod dexopt;
pub mod label;
pub mod layout;
pub mod package;
pub mod pattern;
pub mod report;
pub mod std_contracts;
pub mod text;
