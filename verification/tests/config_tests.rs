use json2model::config::{clean_dep_json, dimacs_trans, exact_config, preprocess, ConfigEle, DepJson, _DepJson};
use json2model::strmap::StrMap;
use json2model::utils::gen_configs;

fn ele(type_: &str, rev_select: &str, dep: &str, restrict: &str) -> ConfigEle {
    ConfigEle {
        type_: type_.to_string(),
        rev_select: rev_select.to_string(),
        dep: dep.to_string(),
        restrict: restrict.to_string(),
    }
}

fn raw_table() -> _DepJson {
    let mut raw: _DepJson = StrMap::new();
    raw.insert("NET".to_string(), vec![ele("bool", "", "", ""), ele("int", "", "", "")]);
    raw.insert("USB".to_string(), vec![ele("tristate", "PCI", "NET && !EMBEDDED", "")]);
    raw.insert("HZ".to_string(), vec![ele("int", "", "", "range 100 1000")]);
    raw.insert("SND".to_string(), vec![ele("tristate", "A=y", "  ", "")]);
    raw
}

fn keys_of<V>(m: &StrMap<V>) -> Vec<String> {
    let mut keys: Vec<String> = (0..m.len()).map(|i| m.key_at(i).clone()).collect();
    keys.sort();
    keys
}

#[test]
fn preprocess_keeps_bool_and_tristate_options() {
    let res = preprocess(raw_table());
    assert_eq!(keys_of(&res), vec!["NET", "SND", "USB"]);
    assert_eq!(res.get("NET"), Some(&ele("bool", "", "", "")));
    assert_eq!(res.get("USB"), Some(&ele("tristate", "PCI", "NET && !EMBEDDED", "")));
    assert_eq!(res.get("HZ"), None);
}

#[test]
fn clean_dep_json_keeps_bool_and_tristate_and_empties_unsupported_expressions() {
    let res = clean_dep_json(raw_table());
    assert_eq!(keys_of(&res), vec!["NET", "SND", "USB"]);
    assert_eq!(res.get("NET"), Some(&ele("bool", "", "", "")));
    assert_eq!(res.get("SND"), Some(&ele("tristate", "", "  ", "")));
    assert_eq!(res.get("USB"), Some(&ele("tristate", "PCI", "NET && !EMBEDDED", "")));
    assert_eq!(res.get("HZ"), None);
    let mut raw: _DepJson = StrMap::new();
    raw.insert("A".to_string(), vec![ele("tristate", "C", "B=y", "")]);
    raw.insert("X".to_string(), vec![ele("bool", "Z", "[A]", "default \"y\"")]);
    raw.insert("W".to_string(), vec![ele("hex", "A=y", "B", "")]);
    raw.insert("V".to_string(), vec![ele("int", "", "", "")]);
    let res = clean_dep_json(raw);
    assert_eq!(keys_of(&res), vec!["A", "X"]);
    assert_eq!(res.get("A"), Some(&ele("tristate", "C", "", "")));
    assert_eq!(res.get("X"), Some(&ele("bool", "Z", "", "default \"y\"")));
}

#[test]
fn exact_config_sorts_and_numbers_names() {
    let dep: DepJson = preprocess(raw_table());
    let (names, index) = exact_config(&dep);
    assert_eq!(names, vec!["NET", "SND", "USB"]);
    assert_eq!(index.get("NET"), Some(&0));
    assert_eq!(index.get("SND"), Some(&1));
    assert_eq!(index.get("USB"), Some(&2));
    assert_eq!(index.get("HZ"), None);
}

#[test]
fn exact_config_uses_code_point_order() {
    let mut dep: DepJson = StrMap::new();
    for name in ["b", "B", "a_1", "A", "AB", "Ä", "a"] {
        dep.insert(name.to_string(), ele("bool", "", "", ""));
    }
    let (names, index) = exact_config(&dep);
    let mut expected: Vec<String> = ["b", "B", "a_1", "A", "AB", "Ä", "a"].iter().map(|s| s.to_string()).collect();
    expected.sort();
    assert_eq!(names, expected);
    for (i, n) in names.iter().enumerate() {
        assert_eq!(index.get(n), Some(&i));
    }
}

#[test]
fn gen_configs_names_module_and_visibility_variables() {
    let dep: DepJson = preprocess(raw_table());
    let model = gen_configs(dep);
    assert_eq!(
        model.config_set,
        vec!["NET", "SND", "SND_MODULE", "USB", "USB_MODULE", "USB_VISIBLE"]
    );
    for (i, n) in model.config_set.iter().enumerate() {
        assert_eq!(model.config2index.get(n), Some(&i));
    }
    let mut tristates = model.tristates.clone();
    tristates.sort();
    assert_eq!(tristates, vec!["SND", "USB"]);
    assert_eq!(model.visible_set, vec!["USB"]);
    assert_eq!(model.json_obj.len(), 3);
}

#[test]
fn gen_configs_merges_clashing_names() {
    let mut dep: DepJson = StrMap::new();
    dep.insert("A".to_string(), ele("tristate", "", "", ""));
    dep.insert("A_MODULE".to_string(), ele("bool", "", "\tX\n", ""));
    let model = gen_configs(dep);
    assert_eq!(model.config_set, vec!["A", "A_MODULE", "A_MODULE_VISIBLE"]);
}

#[test]
fn dimacs_trans_is_a_placeholder() {
    assert_eq!(dimacs_trans(preprocess(raw_table())), "todo");
}

#[test]
fn strmap_insert_get_pop() {
    let mut m: StrMap<usize> = StrMap::new();
    m.insert("a".to_string(), 1);
    m.insert("b".to_string(), 2);
    m.insert("a".to_string(), 3);
    assert_eq!(m.len(), 2);
    assert_eq!(m.get("a"), Some(&3));
    assert!(m.contains_key("b"));
    assert!(!m.contains_key("c"));
    assert_eq!(m.pop(), Some(("b".to_string(), 2)));
    assert_eq!(m.pop(), Some(("a".to_string(), 3)));
    assert_eq!(m.pop(), None);
}
