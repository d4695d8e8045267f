# json2model

Turns Kconfig-style dependency descriptions (JSON tables of options with their
type, `dep`, `rev_select` and `restrict` expressions) into propositional models,
verified with Verus.

- `src/logic.rs` — formulas (`LogicNode`), their meaning, simplification
  (`optimize`), splitting into conjuncts/disjuncts, and conversion to
  conjunctive normal form (`parse_cnf`).
- `src/normal_form.rs` — what the conversion guarantees: where it is defined and
  when it yields an equivalent formula in normal form, and that a formula
  already in normal form comes back unchanged.
- `src/formula.rs` — reading an expression such as `A && (B || !C)` with the
  `regex` and `rustlogic` crates.
- `src/strmap.rs`, `src/text_order.rs` — string-keyed tables and the order of
  strings.
- `src/config.rs` — the option tables: `preprocess`, `clean_dep_json`,
  `exact_config`, `gen_configs`.
- `app/` — the command-line program: file reading, JSON decoding with serde,
  and the variables of the `cnfgen` expression store.
