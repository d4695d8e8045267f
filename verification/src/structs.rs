//! The tables a description is read into.

pub use crate::config::{ConfigEle, ConfigModel, ConfigSet, DepJson, _DepJson};
