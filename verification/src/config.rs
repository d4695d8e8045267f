//! The configuration table read from a dependency description, and the
//! tables derived from it.

use vstd::prelude::*;

use crate::formula::{has_illegal_char, chars_of, contains_illegal_char};
use crate::strmap::{StrMap, text_equal};
use crate::text_order::{strictly_sorted, texts, insert_sorted, lemma_push_to_set};

verus! {

/// One configuration option of a dependency description.
#[derive(Debug, Clone, PartialEq, Eq)]
pub struct ConfigEle {
    /// The option's type (`bool`, `tristate`, `int`, ...).
    pub type_: String,
    /// The expression of the options that select this one.
    pub rev_select: String,
    /// The expression that makes this option configurable.
    pub dep: String,
    /// The expression that restricts the option's value.
    pub restrict: String,
}

/// Options by name, each with one description.
pub type DepJson = StrMap<ConfigEle>;

/// Options by name, each with the list of descriptions found for it.
#[allow(non_camel_case_types)]
pub type _DepJson = StrMap<Vec<ConfigEle>>;

/// Types of options the model handles.
pub open spec fn is_supported_type(t: Seq<char>) -> bool {
    t == "bool"@ || t == "tristate"@
}

/// Every option of the raw table has at least one description.
pub open spec fn all_described(raw: Map<Seq<char>, Vec<ConfigEle>>) -> bool {
    forall|k: Seq<char>| #[trigger] raw.dom().contains(k) ==> raw[k]@.len() > 0
}

/// The result of `preprocess`: the first description of every option whose
/// type is `bool` or `tristate`.
pub open spec fn spec_preprocess(raw: Map<Seq<char>, Vec<ConfigEle>>) -> Map<Seq<char>, ConfigEle> {
    Map::new(
        |k: Seq<char>| raw.dom().contains(k) && is_supported_type(raw[k]@[0].type_@),
        |k: Seq<char>| raw[k]@[0],
    )
}

fn is_supported(t: &String) -> (b: bool)
    ensures
        b == is_supported_type(t@),
{
    text_equal(t.as_str(), "bool") || text_equal(t.as_str(), "tristate")
}

/// Keeps the first description of every option of type `bool` or `tristate`
/// and drops the other options.
pub fn preprocess(raw_json: _DepJson) -> (res: DepJson)
    requires
        all_described(raw_json@),
    ensures
        res@ == spec_preprocess(raw_json@),
{
    let ghost raw0 = raw_json@;
    let mut raw = raw_json;
    let mut res: DepJson = StrMap::new();
    proof {
        assert(res@ =~= Map::new(
            |k: Seq<char>| raw0.dom().contains(k) && !raw@.dom().contains(k) && is_supported_type(raw0[k]@[0].type_@),
            |k: Seq<char>| raw0[k]@[0],
        ));
    }
    loop
        invariant
            all_described(raw0),
            raw@.dom().subset_of(raw0.dom()),
            forall|k: Seq<char>| #[trigger] raw@.dom().contains(k) ==> raw@[k] == raw0[k],
            res@ == Map::new(
                |k: Seq<char>| raw0.dom().contains(k) && !raw@.dom().contains(k) && is_supported_type(raw0[k]@[0].type_@),
                |k: Seq<char>| raw0[k]@[0],
            ),
        ensures
            res@ == spec_preprocess(raw0),
        decreases raw.key_list().len(),
    {
        let ghost before = raw@;
        let ghost res_before = res@;
        match raw.pop() {
            Some((config, val)) => {
                let ghost key = config@;
                let mut val = val;
                let info = val.swap_remove(0);
                if is_supported(&info.type_) {
                    res.insert(config, info);
                }
                proof {
                    assert(res@ =~= Map::new(
                        |k: Seq<char>| raw0.dom().contains(k) && !raw@.dom().contains(k) && is_supported_type(raw0[k]@[0].type_@),
                        |k: Seq<char>| raw0[k]@[0],
                    ));
                }
            },
            None => {
                proof {
                    assert(res@ =~= spec_preprocess(raw0));
                }
                break;
            },
        }
    }
    res
}

/// An expression as the cleaned table keeps it: dropped (empty) when it holds
/// an unsupported character.
pub open spec fn cleaned_expr(s: Seq<char>) -> Seq<char> {
    if has_illegal_char(s) {
        seq![]
    } else {
        s
    }
}

/// `clean_dep_json` keeps, for the option `k` of the raw table, its first
/// description with unsupported expressions emptied.
pub open spec fn cleaned_entry(raw: Map<Seq<char>, Vec<ConfigEle>>, k: Seq<char>, e: ConfigEle) -> bool {
    let info = raw[k]@[0];
    &&& e.type_ == info.type_
    &&& e.restrict == info.restrict
    &&& e.dep@ == cleaned_expr(info.dep@)
    &&& e.rev_select@ == cleaned_expr(info.rev_select@)
}

fn cleaned(expr: String) -> (res: String)
    ensures
        res@ == cleaned_expr(expr@),
{
    let text = chars_of(expr.as_str());
    if contains_illegal_char(&text) {
        String::new()
    } else {
        expr
    }
}

/// The table a parsed dependency description yields: every option of type
/// `bool` or `tristate` keeps its first description, where a `dep` or
/// `rev_select` expression holding an unsupported character (`[`, `]`, `=`,
/// `y`) is replaced by the empty expression, each on its own; options of other
/// types are skipped.
pub fn clean_dep_json(raw_json: _DepJson) -> (res: DepJson)
    requires
        all_described(raw_json@),
    ensures
        res@.dom() == Set::new(
            |k: Seq<char>| raw_json@.dom().contains(k) && is_supported_type(raw_json@[k]@[0].type_@),
        ),
        forall|k: Seq<char>| #[trigger] res@.dom().contains(k) ==> cleaned_entry(raw_json@, k, res@[k]),
{
    let ghost raw0 = raw_json@;
    let mut raw = raw_json;
    let mut res: DepJson = StrMap::new();
    proof {
        assert(res@.dom() =~= Set::new(
            |k: Seq<char>| raw0.dom().contains(k) && !raw@.dom().contains(k) && is_supported_type(raw0[k]@[0].type_@),
        ));
    }
    loop
        invariant
            all_described(raw0),
            raw@.dom().subset_of(raw0.dom()),
            forall|k: Seq<char>| #[trigger] raw@.dom().contains(k) ==> raw@[k] == raw0[k],
            res@.dom() == Set::new(
                |k: Seq<char>| raw0.dom().contains(k) && !raw@.dom().contains(k) && is_supported_type(raw0[k]@[0].type_@),
            ),
            forall|k: Seq<char>| #[trigger] res@.dom().contains(k) ==> cleaned_entry(raw0, k, res@[k]),
        ensures
            res@.dom() == Set::new(
                |k: Seq<char>| raw0.dom().contains(k) && is_supported_type(raw0[k]@[0].type_@),
            ),
            forall|k: Seq<char>| #[trigger] res@.dom().contains(k) ==> cleaned_entry(raw0, k, res@[k]),
        decreases raw.key_list().len(),
    {
        match raw.pop() {
            Some((config, val)) => {
                let ghost key = config@;
                let mut val = val;
                let info = val.swap_remove(0);
                if is_supported(&info.type_) {
                    let ele = ConfigEle {
                        type_: info.type_,
                        rev_select: cleaned(info.rev_select),
                        dep: cleaned(info.dep),
                        restrict: info.restrict,
                    };
                    res.insert(config, ele);
                }
                proof {
                    assert(res@.dom() =~= Set::new(
                        |k: Seq<char>| raw0.dom().contains(k) && !raw@.dom().contains(k) && is_supported_type(raw0[k]@[0].type_@),
                    ));
                }
            },
            None => {
                proof {
                    assert(res@.dom() =~= Set::new(
                        |k: Seq<char>| raw0.dom().contains(k) && is_supported_type(raw0[k]@[0].type_@),
                    ));
                }
                break;
            },
        }
    }
    res
}

/// The option names sorted, and the position of every name in that order.
pub fn exact_config(dep: &DepJson) -> (res: (Vec<String>, StrMap<usize>))
    ensures
        strictly_sorted(texts(res.0@)),
        texts(res.0@).to_set() == dep@.dom(),
        res.1@.dom() == dep@.dom(),
        forall|i: int| 0 <= i < res.0@.len() ==> #[trigger] res.1@[res.0@[i]@] == i,
{
    let n = dep.len();
    let mut config_set: Vec<String> = Vec::new();
    proof {
        assert(texts(config_set@) =~= Seq::<Seq<char>>::empty());
        assert(texts(config_set@).to_set() =~= dep.key_list().take(0).to_set());
    }
    for i in 0..n
        invariant
            n == dep.key_list().len(),
            strictly_sorted(texts(config_set@)),
            texts(config_set@).to_set() == dep.key_list().take(i as int).to_set(),
    {
        let name = dep.key_at(i).clone();
        insert_sorted(&mut config_set, name);
        proof {
            assert(dep.key_list().take(i + 1) =~= dep.key_list().take(i as int).push(dep.key_list()[i as int]));
            lemma_push_to_set(dep.key_list().take(i as int), dep.key_list()[i as int]);
        }
    }
    proof {
        assert(dep.key_list().take(n as int) =~= dep.key_list());
        assert(dep.key_list().to_set() =~= dep@.dom());
    }
    let config_index = index_of_names(&config_set);
    (config_set, config_index)
}

/// The position of every name of a sorted list.
fn index_of_names(names: &Vec<String>) -> (idx: StrMap<usize>)
    requires
        strictly_sorted(texts(names@)),
    ensures
        idx@.dom() == texts(names@).to_set(),
        forall|i: int| 0 <= i < names@.len() ==> #[trigger] idx@[names@[i]@] == i,
{
    let ghost t = texts(names@);
    let mut idx: StrMap<usize> = StrMap::new();
    let m = names.len();
    proof {
        assert(idx@.dom() =~= t.take(0).to_set());
    }
    for i in 0..m
        invariant
            m == names@.len(),
            t == texts(names@),
            strictly_sorted(t),
            idx@.dom() == t.take(i as int).to_set(),
            forall|j: int| 0 <= j < i ==> #[trigger] idx@[names@[j]@] == j,
    {
        let ghost before = idx@;
        proof {
            assert(t[i as int] == names@[i as int]@);
            assert(!t.take(i as int).contains(t[i as int])) by {
                if t.take(i as int).contains(t[i as int]) {
                    let j = choose|j: int| 0 <= j < i && t.take(i as int)[j] == t[i as int];
                    assert(crate::text_order::text_less(t[j], t[i as int]));
                    crate::text_order::lemma_text_less_irreflexive(t[i as int]);
                }
            }
        }
        idx.insert(names[i].clone(), i);
        proof {
            assert(t.take(i + 1) =~= t.take(i as int).push(t[i as int]));
            lemma_push_to_set(t.take(i as int), t[i as int]);
            assert(idx@.dom() =~= t.take(i + 1).to_set());
            assert forall|j: int| 0 <= j < i + 1 implies #[trigger] idx@[names@[j]@] == j by {
                if j < i {
                    assert(t[j] == names@[j]@);
                    assert(crate::text_order::text_less(t[j], t[i as int]));
                    crate::text_order::lemma_text_less_irreflexive(t[i as int]);
                    assert(t.take(i as int).contains(t[j])) by {
                        assert(t.take(i as int)[j] == t[j]);
                    }
                }
            }
        }
    }
    proof {
        assert(t.take(m as int) =~= t);
    }
    idx
}

/// The model's view of a description: no DIMACS rendering is produced, the
/// result is always the text `todo`.
pub fn dimacs_trans(dep_obj: DepJson) -> (res: String)
    ensures
        res@ == "todo"@,
{
    "todo".to_owned()
}

/// The tables derived from a description: the names of all model variables,
/// their positions, and the options that are tristate or have a visibility
/// condition.
pub struct ConfigModel {
    /// The description the model was made from.
    pub json_obj: DepJson,
    /// The position of every variable name in `config_set`.
    pub config2index: StrMap<usize>,
    /// The options of type `tristate`.
    pub tristates: Vec<String>,
    /// All variable names, sorted.
    pub config_set: Vec<String>,
    /// The options whose `dep` expression is not blank.
    pub visible_set: Vec<String>,
}

/// A description with the positions of its options and of its tristate options.
pub struct ConfigSet {
    /// The description.
    pub json_obj: DepJson,
    /// The position of every option.
    pub config2index: StrMap<usize>,
    /// The position of every tristate option.
    pub tristate2index: StrMap<usize>,
}

/// Characters with the Unicode `White_Space` property, those that
/// `char::is_whitespace` accepts and `str::trim` removes.
pub open spec fn is_whitespace_char(c: char) -> bool {
    ('\u{9}' <= c && c <= '\u{D}') || c == ' ' || c == '\u{85}' || c == '\u{A0}' || c == '\u{1680}'
        || ('\u{2000}' <= c && c <= '\u{200A}') || c == '\u{2028}' || c == '\u{2029}' || c == '\u{202F}'
        || c == '\u{205F}' || c == '\u{3000}'
}

/// Nothing but white space: what trims to the empty string.
pub open spec fn is_blank(s: Seq<char>) -> bool {
    forall|i: int| 0 <= i < s.len() ==> is_whitespace_char(#[trigger] s[i])
}

/// The option is of type `tristate`.
pub open spec fn is_tristate(e: ConfigEle) -> bool {
    e.type_@ == "tristate"@
}

/// The option has a visibility condition: its `dep` expression is not blank.
pub open spec fn has_visibility(e: ConfigEle) -> bool {
    !is_blank(e.dep@)
}

/// The variable names an option contributes: its own name, `<name>_MODULE`
/// for a tristate option, `<name>_VISIBLE` for one with a visibility condition.
pub open spec fn is_name_of(n: Seq<char>, k: Seq<char>, e: ConfigEle) -> bool {
    ||| n == k
    ||| (is_tristate(e) && n == k + "_MODULE"@)
    ||| (has_visibility(e) && n == k + "_VISIBLE"@)
}

/// All variable names of a description.
pub open spec fn model_names(m: Map<Seq<char>, ConfigEle>) -> Set<Seq<char>> {
    Set::new(|n: Seq<char>| exists|k: Seq<char>| m.dom().contains(k) && #[trigger] is_name_of(n, k, m[k]))
}

fn is_whitespace(c: char) -> (b: bool)
    ensures
        b == is_whitespace_char(c),
{
    ('\u{9}' <= c && c <= '\u{D}') || c == ' ' || c == '\u{85}' || c == '\u{A0}' || c == '\u{1680}'
        || ('\u{2000}' <= c && c <= '\u{200A}') || c == '\u{2028}' || c == '\u{2029}' || c == '\u{202F}'
        || c == '\u{205F}' || c == '\u{3000}'
}

/// Whether the text trims to nothing.
pub fn is_blank_text(s: &str) -> (b: bool)
    ensures
        b == is_blank(s@),
{
    let n = s.unicode_len();
    for i in 0..n
        invariant
            n == s@.len(),
            forall|j: int| 0 <= j < i ==> is_whitespace_char(#[trigger] s@[j]),
    {
        if !is_whitespace(s.get_char(i)) {
            return false;
        }
    }
    true
}

fn with_suffix(name: &String, suffix: &str) -> (res: String)
    ensures
        res@ == name@ + suffix@,
{
    let mut res = name.clone();
    res.append(suffix);
    res
}

/// Builds the model tables: every option name, `<name>_MODULE` for each
/// tristate option and `<name>_VISIBLE` for each option with a non-blank `dep`,
/// sorted without repetition and numbered in that order; the tristate options
/// and the options with a visibility condition, each listed once.
pub fn gen_configs(json_obj: DepJson) -> (res: ConfigModel)
    ensures
        res.json_obj == json_obj,
        strictly_sorted(texts(res.config_set@)),
        texts(res.config_set@).to_set() == model_names(json_obj@),
        res.config2index@.dom() == model_names(json_obj@),
        forall|i: int| 0 <= i < res.config_set@.len() ==> #[trigger] res.config2index@[res.config_set@[i]@] == i,
        texts(res.tristates@).no_duplicates(),
        texts(res.tristates@).to_set() == Set::new(
            |k: Seq<char>| json_obj@.dom().contains(k) && is_tristate(json_obj@[k]),
        ),
        texts(res.visible_set@).no_duplicates(),
        texts(res.visible_set@).to_set() == Set::new(
            |k: Seq<char>| json_obj@.dom().contains(k) && has_visibility(json_obj@[k]),
        ),
{
    let n = json_obj.len();
    let ghost m = json_obj@;
    let ghost kl = json_obj.key_list();
    let mut config_set: Vec<String> = Vec::new();
    let mut tristate_set: Vec<String> = Vec::new();
    let mut visible_set: Vec<String> = Vec::new();
    proof {
        assert(texts(config_set@).to_set() =~= Set::new(
            |x: Seq<char>| exists|j: int| 0 <= j < 0 && #[trigger] is_name_of(x, kl[j], m[kl[j]]),
        ));
        assert(texts(tristate_set@) =~= Seq::<Seq<char>>::empty());
        assert(texts(visible_set@) =~= Seq::<Seq<char>>::empty());
        assert(texts(tristate_set@).to_set() =~= Set::new(|k: Seq<char>| kl.take(0).contains(k) && is_tristate(m[k])));
        assert(texts(visible_set@).to_set() =~= Set::new(|k: Seq<char>| kl.take(0).contains(k) && has_visibility(m[k])));
    }
    for i in 0..n
        invariant
            n == kl.len(),
            m == json_obj@,
            kl == json_obj.key_list(),
            kl.no_duplicates(),
            forall|k: Seq<char>| #[trigger] m.dom().contains(k) <==> kl.contains(k),
            strictly_sorted(texts(config_set@)),
            texts(config_set@).to_set() == Set::new(
                |x: Seq<char>| exists|j: int| 0 <= j < i && #[trigger] is_name_of(x, kl[j], m[kl[j]]),
            ),
            texts(tristate_set@).no_duplicates(),
            texts(tristate_set@).to_set() == Set::new(|k: Seq<char>| kl.take(i as int).contains(k) && is_tristate(m[k])),
            texts(visible_set@).no_duplicates(),
            texts(visible_set@).to_set() == Set::new(|k: Seq<char>| kl.take(i as int).contains(k) && has_visibility(m[k])),
    {
        let config = json_obj.key_at(i);
        let info = json_obj.value_at(i);
        let ghost k = kl[i as int];
        let ghost e = m[k];
        let ghost names_before = texts(config_set@).to_set();
        let ghost t_before = texts(tristate_set@);
        let ghost v_before = texts(visible_set@);
        insert_sorted(&mut config_set, config.clone());
        let tristate = text_equal(info.type_.as_str(), "tristate");
        if tristate {
            insert_sorted(&mut config_set, with_suffix(config, "_MODULE"));
            tristate_set.push(config.clone());
        }
        let visible = !is_blank_text(info.dep.as_str());
        if visible {
            insert_sorted(&mut config_set, with_suffix(config, "_VISIBLE"));
            visible_set.push(config.clone());
        }
        proof {
            assert(kl.take(i + 1) =~= kl.take(i as int).push(k));
            assert(!kl.take(i as int).contains(k)) by {
                if kl.take(i as int).contains(k) {
                    let j = choose|j: int| 0 <= j < i && kl.take(i as int)[j] == k;
                    assert(kl[j] == kl[i as int]);
                }
            }
            assert(texts(config_set@).to_set() =~= Set::new(
                |x: Seq<char>| exists|j: int| 0 <= j < i + 1 && #[trigger] is_name_of(x, kl[j], m[kl[j]]),
            )) by {
                assert forall|x: Seq<char>| texts(config_set@).to_set().contains(x) <==> (exists|j: int|
                    0 <= j < i + 1 && #[trigger] is_name_of(x, kl[j], m[kl[j]])) by {
                    if exists|j: int| 0 <= j < i + 1 && #[trigger] is_name_of(x, kl[j], m[kl[j]]) {
                        let j = choose|j: int| 0 <= j < i + 1 && #[trigger] is_name_of(x, kl[j], m[kl[j]]);
                        if j < i {
                            assert(names_before.contains(x));
                        }
                    }
                    if names_before.contains(x) {
                        let j = choose|j: int| 0 <= j < i && #[trigger] is_name_of(x, kl[j], m[kl[j]]);
                        assert(0 <= j < i + 1 && is_name_of(x, kl[j], m[kl[j]]));
                    }
                    if x == k {
                        assert(is_name_of(x, kl[i as int], m[kl[i as int]]));
                    }
                    if tristate && x == k + "_MODULE"@ {
                        assert(is_name_of(x, kl[i as int], m[kl[i as int]]));
                    }
                    if visible && x == k + "_VISIBLE"@ {
                        assert(is_name_of(x, kl[i as int], m[kl[i as int]]));
                    }
                }
            }
            lemma_push_to_set(kl.take(i as int), k);
            assert(tristate == is_tristate(e));
            assert(visible == has_visibility(e));
            assert forall|a: Seq<char>| #[trigger] kl.take(i + 1).contains(a) == (kl.take(i as int).contains(a) || a == k) by {
                assert(kl.take(i + 1).to_set().contains(a) == kl.take(i + 1).contains(a));
                assert(kl.take(i as int).to_set().contains(a) == kl.take(i as int).contains(a));
            }
            if tristate {
                assert(texts(tristate_set@) =~= t_before.push(k));
                lemma_push_to_set(t_before, k);
                if t_before.contains(k) {
                    assert(t_before.to_set().contains(k));
                }
            } else {
                assert(texts(tristate_set@) =~= t_before);
            }
            assert(texts(tristate_set@).to_set() =~= Set::new(
                |a: Seq<char>| kl.take(i + 1).contains(a) && is_tristate(m[a]),
            ));
            if visible {
                assert(texts(visible_set@) =~= v_before.push(k));
                lemma_push_to_set(v_before, k);
                if v_before.contains(k) {
                    assert(v_before.to_set().contains(k));
                }
            } else {
                assert(texts(visible_set@) =~= v_before);
            }
            assert(texts(visible_set@).to_set() =~= Set::new(
                |a: Seq<char>| kl.take(i + 1).contains(a) && has_visibility(m[a]),
            ));
        }
    }
    proof {
        assert(kl.take(n as int) =~= kl);
        assert(texts(config_set@).to_set() =~= model_names(m)) by {
            assert forall|x: Seq<char>| texts(config_set@).to_set().contains(x) <==> model_names(m).contains(x) by {
                if texts(config_set@).to_set().contains(x) {
                    let j = choose|j: int| 0 <= j < n && #[trigger] is_name_of(x, kl[j], m[kl[j]]);
                    assert(kl.contains(kl[j]));
                    assert(m.dom().contains(kl[j]));
                }
                if model_names(m).contains(x) {
                    let k = choose|k: Seq<char>| m.dom().contains(k) && #[trigger] is_name_of(x, k, m[k]);
                    assert(kl.contains(k));
                    let j = choose|j: int| 0 <= j < kl.len() && kl[j] == k;
                    assert(is_name_of(x, kl[j], m[kl[j]]));
                }
            }
        }
        assert(texts(tristate_set@).to_set() =~= Set::new(
            |k: Seq<char>| m.dom().contains(k) && is_tristate(m[k]),
        ));
        assert(texts(visible_set@).to_set() =~= Set::new(
            |k: Seq<char>| m.dom().contains(k) && has_visibility(m[k]),
        ));
    }
    let config2index = index_of_names(&config_set);
    ConfigModel {
        json_obj,
        config2index,
        tristates: tristate_set,
        config_set,
        visible_set,
    }
}


/// The options `preprocess` and `clean_dep_json` keep are exactly those of
/// type `bool` or `tristate`.
pub proof fn lemma_supported_types(t: Seq<char>)
    ensures
        is_supported_type(t) <==> (t == "bool"@ || t == "tristate"@),
{
}

/// `preprocess` keeps an option exactly when the type of its first description
/// is `bool` or `tristate`, with that description unchanged; options of type
/// `string`, `hex` or `int` are never kept.
pub proof fn lemma_preprocess_keeps_bool_and_tristate(raw: Map<Seq<char>, Vec<ConfigEle>>, k: Seq<char>)
    ensures
        spec_preprocess(raw).dom().contains(k) <==> (raw.dom().contains(k) && (raw[k]@[0].type_@ == "bool"@
            || raw[k]@[0].type_@ == "tristate"@)),
        spec_preprocess(raw).dom().contains(k) ==> spec_preprocess(raw)[k] == raw[k]@[0],
        raw[k]@[0].type_@ == "string"@ || raw[k]@[0].type_@ == "hex"@ || raw[k]@[0].type_@ == "int"@
            ==> !spec_preprocess(raw).dom().contains(k),
{
    reveal_strlit("bool");
    reveal_strlit("tristate");
    reveal_strlit("string");
    reveal_strlit("hex");
    reveal_strlit("int");
    if raw[k]@[0].type_@ == "string"@ {
        assert(raw[k]@[0].type_@[0] != "bool"@[0]);
        assert(raw[k]@[0].type_@.len() != "tristate"@.len());
    }
    if raw[k]@[0].type_@ == "hex"@ || raw[k]@[0].type_@ == "int"@ {
        assert(raw[k]@[0].type_@.len() != "bool"@.len());
        assert(raw[k]@[0].type_@.len() != "tristate"@.len());
    }
}

/// An expression `clean_dep_json` keeps is emptied exactly when it holds one of
/// the characters `[`, `]`, `=` and `y`, and is kept unchanged otherwise; so a
/// comparison such as `B=m` is always emptied.
pub proof fn lemma_cleaned_expr_literal(s: Seq<char>)
    ensures
        (exists|i: int| 0 <= i < s.len() && (#[trigger] s[i] == '[' || s[i] == ']' || s[i] == '=' || s[i] == 'y'))
            ==> cleaned_expr(s) == Seq::<char>::empty(),
        (forall|i: int| 0 <= i < s.len() ==> (#[trigger] s[i] != '[' && s[i] != ']' && s[i] != '=' && s[i] != 'y'))
            ==> cleaned_expr(s) == s,
        s.contains('=') ==> cleaned_expr(s) == Seq::<char>::empty(),
{
    if exists|i: int| 0 <= i < s.len() && (#[trigger] s[i] == '[' || s[i] == ']' || s[i] == '=' || s[i] == 'y') {
        let i = choose|i: int| 0 <= i < s.len() && (#[trigger] s[i] == '[' || s[i] == ']' || s[i] == '=' || s[i] == 'y');
        assert(crate::formula::is_illegal_char(s[i]));
    }
    if s.contains('=') {
        let i = choose|i: int| 0 <= i < s.len() && s[i] == '=';
        assert(crate::formula::is_illegal_char(s[i]));
    }
    if forall|i: int| 0 <= i < s.len() ==> (#[trigger] s[i] != '[' && s[i] != ']' && s[i] != '=' && s[i] != 'y') {
        assert(!has_illegal_char(s));
    }
}

/// An option has a visibility variable (`<name>_VISIBLE`, listed in
/// `visible_set` by `gen_configs`) exactly when its `dep` expression holds a
/// character that is not white space, that is, when `dep.trim()` is not
/// empty; what the other characters are does not matter.
pub proof fn lemma_visibility_is_nonblank_dep(e: ConfigEle)
    ensures
        has_visibility(e) <==> exists|i: int| 0 <= i < e.dep@.len() && !is_whitespace_char(#[trigger] e.dep@[i]),
        (exists|i: int| 0 <= i < e.dep@.len() && '!' <= #[trigger] e.dep@[i] && e.dep@[i] <= '~') ==> has_visibility(e),
        (forall|i: int| 0 <= i < e.dep@.len() ==> (#[trigger] e.dep@[i] == ' ' || e.dep@[i] == '\t'
            || e.dep@[i] == '\n' || e.dep@[i] == '\r')) ==> !has_visibility(e),
{
    if exists|i: int| 0 <= i < e.dep@.len() && '!' <= #[trigger] e.dep@[i] && e.dep@[i] <= '~' {
        let i = choose|i: int| 0 <= i < e.dep@.len() && '!' <= #[trigger] e.dep@[i] && e.dep@[i] <= '~';
        assert(!is_whitespace_char(e.dep@[i]));
    }
}

/// Every option with a non-blank `dep` contributes the variable
/// `<name>_VISIBLE` to the model, whatever the expression holds.
pub proof fn lemma_visible_name_in_model(m: Map<Seq<char>, ConfigEle>, k: Seq<char>, i: int)
    requires
        m.dom().contains(k),
        0 <= i < m[k].dep@.len(),
        !is_whitespace_char(m[k].dep@[i]),
    ensures
        model_names(m).contains(k + "_VISIBLE"@),
{
    assert(is_name_of(k + "_VISIBLE"@, k, m[k]));
}


/// What `clean_dep_json` makes of a description: type and `restrict` as they
/// were, and each of `dep` and `rev_select` emptied exactly when it, on its
/// own, holds `[`, `]`, `=` or `y`.
pub proof fn lemma_cleaned_entry_fields(raw: Map<Seq<char>, Vec<ConfigEle>>, k: Seq<char>, e: ConfigEle)
    ensures
        cleaned_entry(raw, k, e) <==> {
            let info = raw[k]@[0];
            &&& e.type_ == info.type_
            &&& e.restrict == info.restrict
            &&& e.dep@ == (if exists|i: int| 0 <= i < info.dep@.len() && (#[trigger] info.dep@[i] == '['
                || info.dep@[i] == ']' || info.dep@[i] == '=' || info.dep@[i] == 'y') {
                Seq::<char>::empty()
            } else {
                info.dep@
            })
            &&& e.rev_select@ == (if exists|i: int| 0 <= i < info.rev_select@.len() && (
                #[trigger] info.rev_select@[i] == '[' || info.rev_select@[i] == ']' || info.rev_select@[i] == '='
                || info.rev_select@[i] == 'y') {
                Seq::<char>::empty()
            } else {
                info.rev_select@
            })
        },
{
    let info = raw[k]@[0];
    crate::formula::lemma_unsupported_characters(info.dep@);
    crate::formula::lemma_unsupported_characters(info.rev_select@);
}

/// The variables of a model: every option name; `<name>_MODULE` for an option
/// of type `tristate`; `<name>_VISIBLE` for an option whose `dep` does not trim
/// to nothing; and nothing else.
pub proof fn lemma_model_names_members(m: Map<Seq<char>, ConfigEle>, n: Seq<char>)
    ensures
        model_names(m).contains(n) <==> exists|k: Seq<char>| #![trigger m.dom().contains(k)] m.dom().contains(k) && (
            n == k || (m[k].type_@ == "tristate"@ && n == k + "_MODULE"@) || (!is_blank(m[k].dep@)
            && n == k + "_VISIBLE"@)),
{
    if exists|k: Seq<char>| #![trigger m.dom().contains(k)] m.dom().contains(k) && (
            n == k || (m[k].type_@ == "tristate"@ && n == k + "_MODULE"@) || (!is_blank(m[k].dep@)
            && n == k + "_VISIBLE"@)) {
        let k = choose|k: Seq<char>| #![trigger m.dom().contains(k)] m.dom().contains(k) && (
            n == k || (m[k].type_@ == "tristate"@ && n == k + "_MODULE"@) || (!is_blank(m[k].dep@)
            && n == k + "_VISIBLE"@));
        assert(is_name_of(n, k, m[k]));
        assert(model_names(m).contains(n));
    }
}


/// The options listed as tristate, which get a `<name>_MODULE` variable, are
/// exactly those of type `tristate`.
pub proof fn lemma_tristate_type(e: ConfigEle)
    ensures
        is_tristate(e) <==> e.type_@ == "tristate"@,
{
}

} // verus!
