//! Helpers on formulas and on configuration tables.

pub use crate::config::gen_configs;
pub use crate::logic::{flatten_cnf, flatten_dnf, optimize};
