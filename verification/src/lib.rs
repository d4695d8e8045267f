//! Turns Kconfig-style dependency descriptions into propositional models:
//! configuration tables, boolean formulas and their conjunctive normal form.

pub mod config;
pub mod formula;
pub mod logic;
pub mod normal_form;
pub mod strmap;
pub mod structs;
pub mod text_order;
pub mod utils;

pub use config::{
    clean_dep_json, dimacs_trans, exact_config, preprocess, ConfigEle, DepJson, _DepJson,
};
pub use formula::parse_formula;
pub use logic::{parse_cnf, LogicNode};
pub use strmap::StrMap;
