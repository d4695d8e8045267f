//! Reading a dependency expression such as `A && (B || !C)` into a `LogicNode`.
//!
//! The expression is rewritten into the syntax of the `rustlogic` parser
//! (`&`, `|`, `~`, no blanks, names in square brackets) and handed to it.

use vstd::prelude::*;

use crate::logic::LogicNode;
use rustlogic::LogicNode as ParseTree;

verus! {

/// Every character is an ASCII character.
pub open spec fn is_ascii_text(s: Seq<char>) -> bool {
    forall|i: int| 0 <= i < s.len() ==> (#[trigger] s[i] as u32) < 128
}

/// Characters that make an expression unsupported: `[`, `]`, `=` and `y`
/// (a bracket would clash with variable names, `=` and the value `y` come from
/// comparisons and constants the model does not handle).
pub open spec fn is_illegal_char(c: char) -> bool {
    c == '[' || c == ']' || c == '=' || c == 'y'
}

/// The expression contains an unsupported character.
pub open spec fn has_illegal_char(s: Seq<char>) -> bool {
    exists|i: int| 0 <= i < s.len() && is_illegal_char(#[trigger] s[i])
}

/// `s` with every occurrence of `pat` replaced by `rep`, scanning from the left
/// and resuming after each replaced occurrence (the rule of `str::replace`).
pub open spec fn replaced(s: Seq<char>, pat: Seq<char>, rep: Seq<char>) -> Seq<char>
    decreases s.len(),
{
    if s.len() == 0 {
        seq![]
    } else if 0 < pat.len() <= s.len() && s.take(pat.len() as int) == pat {
        rep + replaced(s.skip(pat.len() as int), pat, rep)
    } else {
        seq![s[0]] + replaced(s.skip(1), pat, rep)
    }
}

/// Letters, digits and `_`: the characters of a name.
pub open spec fn is_word_char(c: char) -> bool {
    ('a' <= c && c <= 'z') || ('A' <= c && c <= 'Z') || ('0' <= c && c <= '9') || c == '_'
}

/// `s` with every maximal run of name characters put in square brackets;
/// `in_word` tells whether a run is open before `s` starts.
pub open spec fn bracket_words_from(s: Seq<char>, in_word: bool) -> Seq<char>
    decreases s.len(),
{
    if s.len() == 0 {
        if in_word {
            seq![']']
        } else {
            seq![]
        }
    } else if is_word_char(s[0]) {
        (if in_word {
            seq![s[0]]
        } else {
            seq!['[', s[0]]
        }) + bracket_words_from(s.skip(1), true)
    } else {
        (if in_word {
            seq![']', s[0]]
        } else {
            seq![s[0]]
        }) + bracket_words_from(s.skip(1), false)
    }
}

/// `s` with every maximal run of letters, digits and `_` put in square brackets.
pub open spec fn bracket_words(s: Seq<char>) -> Seq<char> {
    bracket_words_from(s, false)
}

/// The operators rewritten into the parser's symbols, blanks dropped:
/// `&&` becomes `&`, then `||` becomes `|`, then spaces go, then `!` becomes `~`.
pub open spec fn operators_rewritten(s: Seq<char>) -> Seq<char> {
    replaced(
        replaced(replaced(replaced(s, seq!['&', '&'], seq!['&']), seq!['|', '|'], seq!['|']), seq![' '], seq![]),
        seq!['!'],
        seq!['~'],
    )
}

/// The text handed to the parser for the expression `s`.
pub open spec fn parser_input(s: Seq<char>) -> Seq<char> {
    bracket_words(operators_rewritten(s))
}

/// What `rustlogic::parse` makes of a text: the tree it returns, or `None`
/// where it reports an error.
pub uninterp spec fn parsed_formula(text: Seq<char>) -> Option<LogicNode>;

/// The result of `parse_formula`: nothing for an empty expression or one with an
/// unsupported character, otherwise what the parser makes of the rewritten text.
pub open spec fn spec_parse_formula(s: Seq<char>) -> Option<LogicNode> {
    if s.len() == 0 || has_illegal_char(s) {
        None
    } else {
        parsed_formula(parser_input(s))
    }
}

/// Texts the parser takes without panicking: ASCII text (it slices its input
/// byte by byte and panics on multi-byte characters) of at most 65536
/// characters (it counts nested groups in a `u16`, which 65537 opening
/// parentheses overflow).
pub open spec fn parser_accepts(text: Seq<char>) -> bool {
    is_ascii_text(text) && text.len() <= 65536
}

/// The expressions on which `parse_formula` returns without reaching the
/// parser, or reaches it with a text it takes.
pub open spec fn parse_formula_accepts(s: Seq<char>) -> bool {
    s.len() == 0 || has_illegal_char(s) || (is_ascii_text(s) && parser_input(s).len() <= 65536)
}

/// Rewrites `text` with `regex::Regex::replace_all`. The pattern must be the name
/// pattern `[a-zA-Z_0-9]+` and the replacement `[$0]`: every leftmost-first,
/// non-overlapping match, which for this greedy pattern is every maximal run of
/// name characters, is replaced by itself in square brackets, as the crate's
/// documentation describes `replace_all` and `$0`.
#[verifier::external_body]
fn regex_replace_all(pattern: &str, text: &Vec<char>, replacement: &str) -> (res: Vec<char>)
    requires
        pattern@ == "[a-zA-Z_0-9]+"@,
        replacement@ == "[$0]"@,
    ensures
        res@ == bracket_words(text@),
{
    let input: String = text.iter().collect();
    regex::Regex::new(pattern).unwrap().replace_all(&input, replacement).chars().collect()
}

/// Parses `text` with `rustlogic::parse` and copies the tree into a `LogicNode`;
/// a parse error (the position it reports) becomes `None`. The result is
/// `parsed_formula(text)`; nothing more is stated of it. The text must be ASCII
/// (the parser slices strings at byte offset 1 and panics on other characters)
/// and at most 65536 characters long (its group depth counter is a `u16`, which
/// overflows on 65537 nested opening parentheses). Its recursion also runs once
/// per character, so a text long enough to exhaust the stack makes it fail;
/// that bound depends on the machine and is not stated here.
#[verifier::external_body]
fn rustlogic_parse(text: &Vec<char>) -> (res: Option<LogicNode>)
    requires
        parser_accepts(text@),
    ensures
        res == parsed_formula(text@),
{
    let input: String = text.iter().collect();
    match rustlogic::parse(&input) {
        Ok(tree) => Some(lift_parse_tree(tree)),
        Err(_) => None,
    }
}

/// The parse tree of `rustlogic`, opaque here: it is only copied into a `LogicNode`.
#[verifier::external_type_specification]
#[verifier::external_body]
pub struct ExParseTree(ParseTree);

/// Copies a tree of `rustlogic::LogicNode` into a `LogicNode`, variant for
/// variant; used only inside `rustlogic_parse`.
#[verifier::external_body]
fn lift_parse_tree(tree: ParseTree) -> LogicNode {
    match tree {
        ParseTree::And(l, r) => LogicNode::And(
            Box::new(lift_parse_tree(*l)),
            Box::new(lift_parse_tree(*r)),
        ),
        ParseTree::Or(l, r) => LogicNode::Or(
            Box::new(lift_parse_tree(*l)),
            Box::new(lift_parse_tree(*r)),
        ),
        ParseTree::Not(c) => LogicNode::Not(Box::new(lift_parse_tree(*c))),
        ParseTree::True => LogicNode::True,
        ParseTree::False => LogicNode::False,
        ParseTree::Variable(v) => LogicNode::Variable(v),
    }
}

/// The characters of a string slice, in order.
pub fn chars_of(s: &str) -> (v: Vec<char>)
    ensures
        v@ == s@,
{
    let n = s.unicode_len();
    let mut v: Vec<char> = Vec::new();
    for i in 0..n
        invariant
            n == s@.len(),
            v@ == s@.take(i as int),
    {
        v.push(s.get_char(i));
        proof {
            assert(s@.take(i + 1) =~= s@.take(i as int).push(s@[i as int]));
        }
    }
    proof {
        assert(s@.take(n as int) =~= s@);
    }
    v
}

/// Whether the text holds one of `[`, `]`, `=`, `y`.
pub fn contains_illegal_char(s: &Vec<char>) -> (b: bool)
    ensures
        b == has_illegal_char(s@),
{
    let n = s.len();
    for i in 0..n
        invariant
            n == s@.len(),
            forall|j: int| 0 <= j < i ==> !is_illegal_char(#[trigger] s@[j]),
    {
        let c = s[i];
        if c == '[' || c == ']' || c == '=' || c == 'y' {
            assert(is_illegal_char(s@[i as int]));
            return true;
        }
    }
    false
}

/// Whether `pat` occurs in `s` at position `i`.
fn occurs_at(s: &Vec<char>, i: usize, pat: &Vec<char>) -> (b: bool)
    requires
        i <= s@.len(),
    ensures
        b == (pat@.len() <= s@.len() - i && s@.skip(i as int).take(pat@.len() as int) == pat@),
{
    if pat.len() > s.len() - i {
        return false;
    }
    let m = pat.len();
    let n = s.len();
    for k in 0..m
        invariant
            m == pat@.len(),
            n == s@.len(),
            i <= s@.len(),
            m <= s@.len() - i,
            forall|j: int| 0 <= j < k ==> s@[i + j] == pat@[j],
    {
        if s[i + k] != pat[k] {
            proof {
                assert(s@.skip(i as int).take(m as int)[k as int] != pat@[k as int]);
            }
            return false;
        }
    }
    proof {
        assert(s@.skip(i as int).take(m as int) =~= pat@);
    }
    true
}

/// Every occurrence of `pat` in `s` replaced by `rep`, as `str::replace` does it.
pub fn replace_all(s: &Vec<char>, pat: &Vec<char>, rep: &Vec<char>) -> (res: Vec<char>)
    requires
        pat@.len() > 0,
    ensures
        res@ == replaced(s@, pat@, rep@),
{
    let mut out: Vec<char> = Vec::new();
    let mut i: usize = 0;
    proof {
        assert(s@.skip(0) =~= s@);
        assert(out@ + replaced(s@.skip(0), pat@, rep@) =~= replaced(s@, pat@, rep@));
    }
    while i < s.len()
        invariant
            i <= s@.len(),
            pat@.len() > 0,
            out@ + replaced(s@.skip(i as int), pat@, rep@) == replaced(s@, pat@, rep@),
        decreases s@.len() - i,
    {
        let ghost rest = s@.skip(i as int);
        let ghost before = out@;
        if occurs_at(s, i, pat) {
            let m = rep.len();
            for k in 0..m
                invariant
                    m == rep@.len(),
                    out@ == before + rep@.take(k as int),
            {
                out.push(rep[k]);
                proof {
                    assert(rep@.take(k + 1) =~= rep@.take(k as int).push(rep@[k as int]));
                }
            }
            proof {
                assert(rep@.take(m as int) =~= rep@);
                assert(rest.skip(pat@.len() as int) =~= s@.skip(i + pat@.len()));
                assert(replaced(rest, pat@, rep@) == rep@ + replaced(rest.skip(pat@.len() as int), pat@, rep@));
                assert(before + (rep@ + replaced(s@.skip(i + pat@.len()), pat@, rep@)) =~= out@ + replaced(s@.skip(i + pat@.len()), pat@, rep@));
            }
            i = i + pat.len();
        } else {
            out.push(s[i]);
            proof {
                assert(rest.skip(1) =~= s@.skip(i + 1));
                assert(rest[0] == s@[i as int]);
                assert(replaced(rest, pat@, rep@) == seq![rest[0]] + replaced(rest.skip(1), pat@, rep@));
                assert(before + (seq![rest[0]] + replaced(s@.skip(i + 1), pat@, rep@)) =~= out@ + replaced(s@.skip(i + 1), pat@, rep@));
            }
            i = i + 1;
        }
    }
    proof {
        assert(s@.skip(i as int) =~= Seq::<char>::empty());
        assert(out@ + Seq::<char>::empty() =~= out@);
    }
    out
}

proof fn lemma_ascii_concat(a: Seq<char>, b: Seq<char>)
    requires
        is_ascii_text(a),
        is_ascii_text(b),
    ensures
        is_ascii_text(a + b),
{
    assert forall|i: int| 0 <= i < (a + b).len() implies (#[trigger] (a + b)[i] as u32) < 128 by {
        if i < a.len() {
            assert((a + b)[i] == a[i]);
        } else {
            assert((a + b)[i] == b[i - a.len()]);
        }
    }
}

/// Replacing with ASCII text keeps ASCII text ASCII.
proof fn lemma_replaced_ascii(s: Seq<char>, pat: Seq<char>, rep: Seq<char>)
    requires
        is_ascii_text(s),
        is_ascii_text(rep),
    ensures
        is_ascii_text(replaced(s, pat, rep)),
    decreases s.len(),
{
    if s.len() > 0 {
        if 0 < pat.len() <= s.len() && s.take(pat.len() as int) == pat {
            let rest = s.skip(pat.len() as int);
            assert(is_ascii_text(rest)) by {
                assert forall|i: int| 0 <= i < rest.len() implies (#[trigger] rest[i] as u32) < 128 by {
                    assert(rest[i] == s[i + pat.len()]);
                }
            }
            lemma_replaced_ascii(rest, pat, rep);
            lemma_ascii_concat(rep, replaced(rest, pat, rep));
        } else {
            let rest = s.skip(1);
            assert(is_ascii_text(rest)) by {
                assert forall|i: int| 0 <= i < rest.len() implies (#[trigger] rest[i] as u32) < 128 by {
                    assert(rest[i] == s[i + 1]);
                }
            }
            lemma_replaced_ascii(rest, pat, rep);
            assert(is_ascii_text(seq![s[0]])) by {
                assert(seq![s[0]][0] == s[0]);
            }
            lemma_ascii_concat(seq![s[0]], replaced(rest, pat, rep));
        }
    }
}

/// Bracketing names keeps ASCII text ASCII.
proof fn lemma_bracket_words_ascii(s: Seq<char>, in_word: bool)
    requires
        is_ascii_text(s),
    ensures
        is_ascii_text(bracket_words_from(s, in_word)),
    decreases s.len(),
{
    if s.len() == 0 {
        assert(is_ascii_text(seq![']'])) by {
            assert(seq![']'][0] == ']');
        }
    } else {
        let rest = s.skip(1);
        assert(is_ascii_text(rest)) by {
            assert forall|i: int| 0 <= i < rest.len() implies (#[trigger] rest[i] as u32) < 128 by {
                assert(rest[i] == s[i + 1]);
            }
        }
        let c = s[0];
        assert((c as u32) < 128);
        let head: Seq<char> = if is_word_char(c) {
            if in_word { seq![c] } else { seq!['[', c] }
        } else {
            if in_word { seq![']', c] } else { seq![c] }
        };
        assert(is_ascii_text(head)) by {
            assert forall|i: int| 0 <= i < head.len() implies (#[trigger] head[i] as u32) < 128 by {
                assert(head[i] == c || head[i] == '[' || head[i] == ']');
            }
        }
        lemma_bracket_words_ascii(rest, is_word_char(c));
        lemma_ascii_concat(head, bracket_words_from(rest, is_word_char(c)));
    }
}

proof fn lemma_parser_input_ascii(s: Seq<char>)
    requires
        is_ascii_text(s),
    ensures
        is_ascii_text(parser_input(s)),
{
    let amp = seq!['&'];
    let bar = seq!['|'];
    let tilde = seq!['~'];
    let none = Seq::<char>::empty();
    assert(is_ascii_text(amp)) by { assert(amp[0] == '&'); }
    assert(is_ascii_text(bar)) by { assert(bar[0] == '|'); }
    assert(is_ascii_text(tilde)) by { assert(tilde[0] == '~'); }
    let s1 = replaced(s, seq!['&', '&'], amp);
    lemma_replaced_ascii(s, seq!['&', '&'], amp);
    let s2 = replaced(s1, seq!['|', '|'], bar);
    lemma_replaced_ascii(s1, seq!['|', '|'], bar);
    let s3 = replaced(s2, seq![' '], none);
    lemma_replaced_ascii(s2, seq![' '], none);
    lemma_replaced_ascii(s3, seq!['!'], tilde);
    lemma_bracket_words_ascii(operators_rewritten(s), false);
}

/// The unsupported characters are exactly `[`, `]`, `=` and `y`: an
/// expression holding any of them, a comparison such as `B=m` among them,
/// gives `None` from `parse_formula`.
pub proof fn lemma_unsupported_characters(s: Seq<char>)
    ensures
        has_illegal_char(s) <==> exists|i: int|
            0 <= i < s.len() && (#[trigger] s[i] == '[' || s[i] == ']' || s[i] == '=' || s[i] == 'y'),
        s.contains('=') ==> spec_parse_formula(s) is None,
        s.contains('[') || s.contains(']') || s.contains('y') ==> spec_parse_formula(s) is None,
{
    if s.contains('=') {
        let i = choose|i: int| 0 <= i < s.len() && s[i] == '=';
        assert(is_illegal_char(s[i]));
    }
    if s.contains('[') || s.contains(']') || s.contains('y') {
        let i = choose|i: int| 0 <= i < s.len() && (s[i] == '[' || s[i] == ']' || s[i] == 'y');
        assert(is_illegal_char(s[i]));
    }
}

/// A character that does not occur in the pattern passes a replacement
/// unchanged at the front of the text.
proof fn lemma_replaced_front(c: char, t: Seq<char>, pat: Seq<char>, rep: Seq<char>)
    requires
        pat.len() > 0,
        pat[0] != c,
    ensures
        replaced(seq![c] + t, pat, rep) == seq![c] + replaced(t, pat, rep),
{
    let s = seq![c] + t;
    if pat.len() <= s.len() {
        assert(s.take(pat.len() as int)[0] == c);
    }
    assert(s.skip(1) =~= t);
}

/// A character that does not occur in the pattern passes a replacement
/// unchanged at the end of the text.
proof fn lemma_replaced_back(t: Seq<char>, c: char, pat: Seq<char>, rep: Seq<char>)
    requires
        pat.len() > 0,
        forall|j: int| 0 <= j < pat.len() ==> pat[j] != c,
    ensures
        replaced(t + seq![c], pat, rep) == replaced(t, pat, rep) + seq![c],
    decreases t.len(),
{
    let s = t + seq![c];
    if t.len() == 0 {
        assert(s =~= seq![c]);
        if pat.len() <= s.len() {
            if s.take(pat.len() as int) == pat {
                assert(pat[0] == s[0]);
            }
        }
        assert(s.skip(1) =~= Seq::<char>::empty());
        assert(replaced(Seq::<char>::empty(), pat, rep) =~= Seq::<char>::empty());
        assert(replaced(s, pat, rep) =~= seq![c]);
    } else {
        let hit_t = 0 < pat.len() <= t.len() && t.take(pat.len() as int) == pat;
        let hit_s = 0 < pat.len() <= s.len() && s.take(pat.len() as int) == pat;
        if pat.len() <= t.len() {
            assert(s.take(pat.len() as int) =~= t.take(pat.len() as int));
        } else if pat.len() <= s.len() {
            assert(pat.len() == s.len());
            if s.take(pat.len() as int) == pat {
                assert(pat[t.len() as int] == s.take(pat.len() as int)[t.len() as int]);
                assert(false);
            }
        }
        assert(hit_t == hit_s);
        if hit_t {
            let n = pat.len() as int;
            lemma_replaced_back(t.skip(n), c, pat, rep);
            assert(s.skip(n) =~= t.skip(n) + seq![c]);
            assert(rep + (replaced(t.skip(n), pat, rep) + seq![c]) =~= (rep + replaced(t.skip(n), pat, rep)) + seq![c]);
        } else {
            lemma_replaced_back(t.skip(1), c, pat, rep);
            assert(s.skip(1) =~= t.skip(1) + seq![c]);
            assert(s[0] == t[0]);
            assert(seq![t[0]] + (replaced(t.skip(1), pat, rep) + seq![c]) =~= (seq![t[0]] + replaced(t.skip(1), pat, rep)) + seq![c]);
        }
    }
}

/// A character that is not part of a name passes the bracketing unchanged at
/// the end of the text (a name running up to it is closed before it).
proof fn lemma_bracket_words_back(t: Seq<char>, c: char, in_word: bool)
    requires
        !is_word_char(c),
    ensures
        bracket_words_from(t + seq![c], in_word) == bracket_words_from(t, in_word) + seq![c],
    decreases t.len(),
{
    let s = t + seq![c];
    if t.len() == 0 {
        assert(s =~= seq![c]);
        assert(s[0] == c);
        assert(s.skip(1) =~= Seq::<char>::empty());
        assert(bracket_words_from(s.skip(1), false) == Seq::<char>::empty());
        if in_word {
            assert(bracket_words_from(s, in_word) == seq![']', c] + bracket_words_from(s.skip(1), false));
            assert(bracket_words_from(t, in_word) == seq![']']);
            assert(seq![']', c] + Seq::<char>::empty() =~= seq![']'] + seq![c]);
        } else {
            assert(bracket_words_from(s, in_word) == seq![c] + bracket_words_from(s.skip(1), false));
            assert(bracket_words_from(t, in_word) == Seq::<char>::empty());
            assert(seq![c] + Seq::<char>::empty() =~= Seq::<char>::empty() + seq![c]);
        }
    } else {
        let w = is_word_char(t[0]);
        lemma_bracket_words_back(t.skip(1), c, w);
        assert(s.skip(1) =~= t.skip(1) + seq![c]);
        assert(s[0] == t[0]);
        let head: Seq<char> = if w {
            if in_word { seq![t[0]] } else { seq!['[', t[0]] }
        } else {
            if in_word { seq![']', t[0]] } else { seq![t[0]] }
        };
        assert(bracket_words_from(s, in_word) == head + bracket_words_from(s.skip(1), w));
        assert(bracket_words_from(t, in_word) == head + bracket_words_from(t.skip(1), w));
        assert(head + (bracket_words_from(t.skip(1), w) + seq![c]) =~= (head + bracket_words_from(t.skip(1), w)) + seq![c]);
    }
}

/// Negating a group: the text handed to the parser for `!(e)` is `~(`, the
/// text for `e`, and `)`; every `!` in front of a group becomes the parser's
/// negation, whatever `e` is.
pub proof fn lemma_negated_group_parser_input(e: Seq<char>)
    ensures
        parser_input(seq!['!', '('] + e + seq![')']) == seq!['~', '('] + parser_input(e) + seq![')'],
{
    let and2 = seq!['&', '&'];
    let and1 = seq!['&'];
    let or2 = seq!['|', '|'];
    let or1 = seq!['|'];
    let sp = seq![' '];
    let none = Seq::<char>::empty();
    let bang = seq!['!'];
    let tilde = seq!['~'];
    // the steps of the rewriting on `e`
    let e1 = replaced(e, and2, and1);
    let e2 = replaced(e1, or2, or1);
    let e3 = replaced(e2, sp, none);
    let e4 = replaced(e3, bang, tilde);
    // the same steps on `(e)`, prefixed by `!`
    let par = |x: Seq<char>| seq!['('] + x + seq![')'];
    assert forall|x: Seq<char>, p: Seq<char>, r: Seq<char>|
        p.len() > 0 && p[0] != '(' && (forall|j: int| 0 <= j < p.len() ==> p[j] != ')')
        implies #[trigger] replaced(seq!['('] + x + seq![')'], p, r) == seq!['('] + replaced(x, p, r) + seq![')'] by {
        assert(seq!['('] + x + seq![')'] =~= seq!['('] + (x + seq![')']));
        lemma_replaced_front('(', x + seq![')'], p, r);
        lemma_replaced_back(x, ')', p, r);
        assert(seq!['('] + (replaced(x, p, r) + seq![')']) =~= seq!['('] + replaced(x, p, r) + seq![')']);
    }
    let w = seq!['!', '('] + e + seq![')'];
    assert(w =~= seq!['!'] + par(e));
    // `&&`, `||` and blanks: the `!` and the parentheses stay
    lemma_replaced_front('!', par(e), and2, and1);
    assert(replaced(par(e), and2, and1) == par(e1));
    lemma_replaced_front('!', par(e1), or2, or1);
    assert(replaced(par(e1), or2, or1) == par(e2));
    lemma_replaced_front('!', par(e2), sp, none);
    assert(replaced(par(e2), sp, none) == par(e3));
    // `!` becomes `~`
    let w3 = seq!['!'] + par(e3);
    assert(w3.take(1) =~= bang);
    assert(w3.skip(1) =~= par(e3));
    assert(replaced(par(e3), bang, tilde) == par(e4));
    assert(operators_rewritten(w) == tilde + par(e4));
    assert(operators_rewritten(e) == e4);
    // bracketing: `~` and `(` are no name characters, nor is `)`
    let t = tilde + par(e4);
    assert(t =~= seq!['~'] + (seq!['('] + (e4 + seq![')'])));
    assert(t.skip(1) =~= seq!['('] + (e4 + seq![')']));
    assert((seq!['('] + (e4 + seq![')'])).skip(1) =~= e4 + seq![')']);
    assert(t[0] == '~');
    assert((seq!['('] + (e4 + seq![')']))[0] == '(');
    lemma_bracket_words_back(e4, ')', false);
    assert(bracket_words_from(seq!['('] + (e4 + seq![')']), false)
        == seq!['('] + bracket_words_from(e4 + seq![')'], false));
    assert(bracket_words_from(t, false) == seq!['~'] + bracket_words_from(t.skip(1), false));
    assert(seq!['~'] + (seq!['('] + (bracket_words_from(e4, false) + seq![')']))
        =~= seq!['~', '('] + bracket_words_from(e4, false) + seq![')']);
}

/// A character that does not occur in the pattern splits a replacement: the
/// parts before and after it are rewritten on their own.
proof fn lemma_replaced_split(x: Seq<char>, c: char, y: Seq<char>, pat: Seq<char>, rep: Seq<char>)
    requires
        pat.len() > 0,
        forall|j: int| 0 <= j < pat.len() ==> pat[j] != c,
    ensures
        replaced(x + seq![c] + y, pat, rep) == replaced(x, pat, rep) + seq![c] + replaced(y, pat, rep),
    decreases x.len(),
{
    let s = x + seq![c] + y;
    if x.len() == 0 {
        assert(s =~= seq![c] + y);
        lemma_replaced_front(c, y, pat, rep);
        assert(replaced(x, pat, rep) =~= Seq::<char>::empty());
        assert(Seq::<char>::empty() + seq![c] + replaced(y, pat, rep) =~= seq![c] + replaced(y, pat, rep));
    } else {
        let n = pat.len() as int;
        let hit_x = 0 < n <= x.len() && x.take(n) == pat;
        let hit_s = 0 < n <= s.len() && s.take(n) == pat;
        if n <= x.len() {
            assert(s.take(n) =~= x.take(n));
        } else if n <= s.len() {
            if s.take(n) == pat {
                assert(pat[x.len() as int] == s.take(n)[x.len() as int]);
                assert(false);
            }
        }
        assert(hit_x == hit_s);
        if hit_x {
            lemma_replaced_split(x.skip(n), c, y, pat, rep);
            assert(s.skip(n) =~= x.skip(n) + seq![c] + y);
            assert(rep + (replaced(x.skip(n), pat, rep) + seq![c] + replaced(y, pat, rep))
                =~= (rep + replaced(x.skip(n), pat, rep)) + seq![c] + replaced(y, pat, rep));
        } else {
            lemma_replaced_split(x.skip(1), c, y, pat, rep);
            assert(s.skip(1) =~= x.skip(1) + seq![c] + y);
            assert(s[0] == x[0]);
            assert(seq![x[0]] + (replaced(x.skip(1), pat, rep) + seq![c] + replaced(y, pat, rep))
                =~= (seq![x[0]] + replaced(x.skip(1), pat, rep)) + seq![c] + replaced(y, pat, rep));
        }
    }
}

/// A character that is not part of a name splits the bracketing.
proof fn lemma_bracket_words_split(x: Seq<char>, c: char, y: Seq<char>, in_word: bool)
    requires
        !is_word_char(c),
    ensures
        bracket_words_from(x + seq![c] + y, in_word)
            == bracket_words_from(x, in_word) + seq![c] + bracket_words_from(y, false),
    decreases x.len(),
{
    let s = x + seq![c] + y;
    if x.len() == 0 {
        assert(s =~= seq![c] + y);
        assert(s[0] == c);
        assert(s.skip(1) =~= y);
        if in_word {
            assert(bracket_words_from(s, in_word) == seq![']', c] + bracket_words_from(y, false));
            assert(bracket_words_from(x, in_word) == seq![']']);
            assert(seq![']', c] + bracket_words_from(y, false) =~= seq![']'] + seq![c] + bracket_words_from(y, false));
        } else {
            assert(bracket_words_from(s, in_word) == seq![c] + bracket_words_from(y, false));
            assert(bracket_words_from(x, in_word) == Seq::<char>::empty());
            assert(seq![c] + bracket_words_from(y, false) =~= Seq::<char>::empty() + seq![c] + bracket_words_from(y, false));
        }
    } else {
        let w = is_word_char(x[0]);
        lemma_bracket_words_split(x.skip(1), c, y, w);
        assert(s.skip(1) =~= x.skip(1) + seq![c] + y);
        assert(s[0] == x[0]);
        let head: Seq<char> = if w {
            if in_word { seq![x[0]] } else { seq!['[', x[0]] }
        } else {
            if in_word { seq![']', x[0]] } else { seq![x[0]] }
        };
        assert(bracket_words_from(s, in_word) == head + bracket_words_from(s.skip(1), w));
        assert(bracket_words_from(x, in_word) == head + bracket_words_from(x.skip(1), w));
        assert(head + (bracket_words_from(x.skip(1), w) + seq![c] + bracket_words_from(y, false))
            =~= (head + bracket_words_from(x.skip(1), w)) + seq![c] + bracket_words_from(y, false));
    }
}

/// `(a)` followed by more text, under a replacement whose pattern neither
/// starts with `(` nor holds `)`.
proof fn lemma_replaced_group_then(a: Seq<char>, t: Seq<char>, pat: Seq<char>, rep: Seq<char>)
    requires
        pat.len() > 0,
        pat[0] != '(',
        forall|j: int| 0 <= j < pat.len() ==> pat[j] != ')',
    ensures
        replaced(seq!['('] + a + seq![')'] + t, pat, rep)
            == seq!['('] + replaced(a, pat, rep) + seq![')'] + replaced(t, pat, rep),
{
    assert(seq!['('] + a + seq![')'] + t =~= seq!['('] + (a + seq![')'] + t));
    lemma_replaced_front('(', a + seq![')'] + t, pat, rep);
    lemma_replaced_split(a, ')', t, pat, rep);
    assert(seq!['('] + (replaced(a, pat, rep) + seq![')'] + replaced(t, pat, rep))
        =~= seq!['('] + replaced(a, pat, rep) + seq![')'] + replaced(t, pat, rep));
}

/// The rewriting of `(a)`, followed by the operator `m` and `(b)`, under one
/// replacement step: the groups are rewritten on their own.
proof fn lemma_replaced_binary(a: Seq<char>, m: Seq<char>, m2: Seq<char>, b: Seq<char>, pat: Seq<char>, rep: Seq<char>)
    requires
        pat.len() > 0,
        pat[0] != '(',
        forall|j: int| 0 <= j < pat.len() ==> pat[j] != ')',
        replaced(m + seq!['('] + b + seq![')'], pat, rep) == m2 + replaced(seq!['('] + b + seq![')'], pat, rep),
    ensures
        replaced(seq!['('] + a + seq![')'] + m + seq!['('] + b + seq![')'], pat, rep)
            == seq!['('] + replaced(a, pat, rep) + seq![')'] + m2 + seq!['('] + replaced(b, pat, rep) + seq![')'],
{
    let t = m + seq!['('] + b + seq![')'];
    assert(seq!['('] + a + seq![')'] + m + seq!['('] + b + seq![')'] =~= seq!['('] + a + seq![')'] + t);
    lemma_replaced_group_then(a, t, pat, rep);
    lemma_replaced_group_then(b, Seq::<char>::empty(), pat, rep);
    assert(seq!['('] + b + seq![')'] + Seq::<char>::empty() =~= seq!['('] + b + seq![')']);
    assert(replaced(Seq::<char>::empty(), pat, rep) =~= Seq::<char>::empty());
    assert(seq!['('] + replaced(b, pat, rep) + seq![')'] + Seq::<char>::empty()
        =~= seq!['('] + replaced(b, pat, rep) + seq![')']);
    assert(seq!['('] + replaced(a, pat, rep) + seq![')'] + (m2 + (seq!['('] + replaced(b, pat, rep) + seq![')']))
        =~= seq!['('] + replaced(a, pat, rep) + seq![')'] + m2 + seq!['('] + replaced(b, pat, rep) + seq![')']);
}

/// An operator character in front of a group passes a replacement whose
/// pattern does not start with it.
proof fn lemma_replaced_op_front(m: Seq<char>, b: Seq<char>, pat: Seq<char>, rep: Seq<char>)
    requires
        pat.len() > 0,
        pat[0] != '(',
        forall|j: int| 0 <= j < pat.len() ==> pat[j] != ')',
        forall|i: int| 0 <= i < m.len() ==> #[trigger] m[i] != pat[0],
    ensures
        replaced(m + seq!['('] + b + seq![')'], pat, rep) == m + replaced(seq!['('] + b + seq![')'], pat, rep),
    decreases m.len(),
{
    if m.len() > 0 {
        let t = m.skip(1) + seq!['('] + b + seq![')'];
        assert(m + seq!['('] + b + seq![')'] =~= seq![m[0]] + t);
        lemma_replaced_front(m[0], t, pat, rep);
        lemma_replaced_op_front(m.skip(1), b, pat, rep);
        assert(seq![m[0]] + (m.skip(1) + replaced(seq!['('] + b + seq![')'], pat, rep))
            =~= m + replaced(seq!['('] + b + seq![')'], pat, rep));
    } else {
        assert(m + seq!['('] + b + seq![')'] =~= seq!['('] + b + seq![')']);
        assert(m + replaced(seq!['('] + b + seq![')'], pat, rep) =~= replaced(seq!['('] + b + seq![')'], pat, rep));
    }
}

/// A doubled operator in front of a group, replaced by its single form.
proof fn lemma_replaced_op_hit(c: char, b: Seq<char>)
    ensures
        replaced(seq![c, c] + seq!['('] + b + seq![')'], seq![c, c], seq![c])
            == seq![c] + replaced(seq!['('] + b + seq![')'], seq![c, c], seq![c]),
{
    let s = seq![c, c] + seq!['('] + b + seq![')'];
    assert(s.take(2) =~= seq![c, c]);
    assert(s.skip(2) =~= seq!['('] + b + seq![')']);
}

/// Conjunction and disjunction of groups: the text handed to the parser for
/// `(a)&&(b)` is `(`, the text for `a`, `)&(`, the text for `b` and `)`; for
/// `(a)||(b)` the same with `|`.
pub proof fn lemma_binary_group_parser_input(a: Seq<char>, b: Seq<char>, c: char)
    requires
        c == '&' || c == '|',
    ensures
        parser_input(seq!['('] + a + seq![')', c, c, '('] + b + seq![')'])
            == seq!['('] + parser_input(a) + seq![')', c, '('] + parser_input(b) + seq![')'],
{
    let and2 = seq!['&', '&'];
    let and1 = seq!['&'];
    let or2 = seq!['|', '|'];
    let or1 = seq!['|'];
    let sp = seq![' '];
    let none = Seq::<char>::empty();
    let bang = seq!['!'];
    let tilde = seq!['~'];
    let cc = seq![c, c];
    let c1 = seq![c];
    let w = seq!['('] + a + seq![')', c, c, '('] + b + seq![')'];
    assert(w =~= seq!['('] + a + seq![')'] + cc + seq!['('] + b + seq![')']);
    let a1 = replaced(a, and2, and1);
    let b1 = replaced(b, and2, and1);
    let a2 = replaced(a1, or2, or1);
    let b2 = replaced(b1, or2, or1);
    let a3 = replaced(a2, sp, none);
    let b3 = replaced(b2, sp, none);
    let a4 = replaced(a3, bang, tilde);
    let b4 = replaced(b3, bang, tilde);
    // `&&`
    let m1 = if c == '&' { c1 } else { cc };
    if c == '&' {
        lemma_replaced_op_hit('&', b);
    } else {
        lemma_replaced_op_front(cc, b, and2, and1);
    }
    lemma_replaced_binary(a, cc, m1, b, and2, and1);
    let w1 = seq!['('] + a1 + seq![')'] + m1 + seq!['('] + b1 + seq![')'];
    assert(replaced(w, and2, and1) == w1);
    // `||`
    if c == '&' {
        lemma_replaced_op_front(c1, b1, or2, or1);
    } else {
        lemma_replaced_op_hit('|', b1);
    }
    lemma_replaced_binary(a1, m1, c1, b1, or2, or1);
    let w2 = seq!['('] + a2 + seq![')'] + c1 + seq!['('] + b2 + seq![')'];
    assert(replaced(w1, or2, or1) == w2);
    // blanks
    lemma_replaced_op_front(c1, b2, sp, none);
    lemma_replaced_binary(a2, c1, c1, b2, sp, none);
    let w3 = seq!['('] + a3 + seq![')'] + c1 + seq!['('] + b3 + seq![')'];
    assert(replaced(w2, sp, none) == w3);
    // `!`
    lemma_replaced_op_front(c1, b3, bang, tilde);
    lemma_replaced_binary(a3, c1, c1, b3, bang, tilde);
    let w4 = seq!['('] + a4 + seq![')'] + c1 + seq!['('] + b4 + seq![')'];
    assert(replaced(w3, bang, tilde) == w4);
    assert(operators_rewritten(w) == w4);
    assert(operators_rewritten(a) == a4);
    assert(operators_rewritten(b) == b4);
    // bracketing
    let tail = seq![c, '('] + b4 + seq![')'];
    assert(w4 =~= seq!['('] + (a4 + seq![')'] + tail));
    assert(w4[0] == '(');
    assert(w4.skip(1) =~= a4 + seq![')'] + tail);
    lemma_bracket_words_split(a4, ')', tail, false);
    assert(tail =~= seq![c] + (seq!['('] + b4 + seq![')']));
    assert(tail[0] == c);
    assert(tail.skip(1) =~= seq!['('] + (b4 + seq![')']));
    let g = seq!['('] + (b4 + seq![')']);
    assert(g[0] == '(');
    assert(g.skip(1) =~= b4 + seq![')']);
    lemma_bracket_words_back(b4, ')', false);
    assert(bracket_words_from(g, false) == seq!['('] + bracket_words_from(b4 + seq![')'], false));
    assert(bracket_words_from(tail, false) == seq![c] + bracket_words_from(g, false));
    assert(bracket_words_from(w4, false) == seq!['('] + bracket_words_from(w4.skip(1), false));
    assert(seq!['('] + (bracket_words_from(a4, false) + seq![')'] + (seq![c] + (seq!['('] + (bracket_words_from(b4, false) + seq![')']))))
        =~= seq!['('] + bracket_words_from(a4, false) + seq![')', c, '('] + bracket_words_from(b4, false) + seq![')']);
}

/// An expression that is not empty and holds none of `[`, `]`, `=`, `y`
/// reaches the parser, with its rewritten text; an empty one gives `None`.
pub proof fn lemma_parse_formula_reaches_parser(s: Seq<char>)
    ensures
        s.len() == 0 ==> spec_parse_formula(s) is None,
        s.len() > 0 && (forall|i: int| 0 <= i < s.len() ==> (#[trigger] s[i] != '[' && s[i] != ']' && s[i] != '='
            && s[i] != 'y')) ==> spec_parse_formula(s) == parsed_formula(parser_input(s)),
{
    lemma_unsupported_characters(s);
}

/// Removing a character leaves none of it.
proof fn lemma_replaced_removes(s: Seq<char>, x: char)
    ensures
        forall|i: int| 0 <= i < replaced(s, seq![x], Seq::<char>::empty()).len()
            ==> #[trigger] replaced(s, seq![x], Seq::<char>::empty())[i] != x,
    decreases s.len(),
{
    if s.len() > 0 {
        lemma_replaced_removes(s.skip(1), x);
        let rest = replaced(s.skip(1), seq![x], Seq::<char>::empty());
        let r = replaced(s, seq![x], Seq::<char>::empty());
        if s.take(1) == seq![x] {
            assert(r == Seq::<char>::empty() + rest);
            assert(r =~= rest);
        } else {
            assert(r == seq![s[0]] + rest);
            if s[0] == x {
                assert(s.take(1) =~= seq![x]);
            }
            assert forall|i: int| 0 <= i < r.len() implies #[trigger] r[i] != x by {
                if i > 0 {
                    assert(r[i] == rest[i - 1]);
                }
            }
        }
    }
}

/// After the rewriting no blank and no `!` is left: blanks are dropped and
/// every `!` has become `~`.
pub proof fn lemma_rewriting_leaves_no_blank_or_bang(s: Seq<char>)
    ensures
        forall|i: int| 0 <= i < operators_rewritten(s).len() ==> #[trigger] operators_rewritten(s)[i] != ' '
            && operators_rewritten(s)[i] != '!',
{
    let s1 = replaced(s, seq!['&', '&'], seq!['&']);
    let s2 = replaced(s1, seq!['|', '|'], seq!['|']);
    let s3 = replaced(s2, seq![' '], Seq::<char>::empty());
    lemma_replaced_removes(s2, ' ');
    lemma_replaced_single(s3, '!', '~');
    assert(operators_rewritten(s) == replaced(s3, seq!['!'], seq!['~']));
    assert forall|i: int| 0 <= i < operators_rewritten(s).len() implies #[trigger] operators_rewritten(s)[i] != ' '
        && operators_rewritten(s)[i] != '!' by {
        assert(s3[i] != ' ');
    }
}

/// Outside `&`, `|` and blanks, the rewriting changes exactly the `!`s: each
/// becomes the parser's `~`, every other character stays where it is.
pub proof fn lemma_rewriting_maps_negations(s: Seq<char>)
    requires
        forall|i: int| 0 <= i < s.len() ==> #[trigger] s[i] != '&' && s[i] != '|' && s[i] != ' ',
    ensures
        operators_rewritten(s).len() == s.len(),
        forall|i: int| 0 <= i < s.len() ==> #[trigger] operators_rewritten(s)[i] == (if s[i] == '!' {
            '~'
        } else {
            s[i]
        }),
{
    lemma_replaced_absent(s, seq!['&', '&'], seq!['&']);
    lemma_replaced_absent(s, seq!['|', '|'], seq!['|']);
    lemma_replaced_absent(s, seq![' '], Seq::<char>::empty());
    lemma_replaced_single(s, '!', '~');
}

/// A pattern whose first character does not occur leaves the text as it is.
proof fn lemma_replaced_absent(s: Seq<char>, pat: Seq<char>, rep: Seq<char>)
    requires
        pat.len() > 0,
        forall|i: int| 0 <= i < s.len() ==> #[trigger] s[i] != pat[0],
    ensures
        replaced(s, pat, rep) == s,
    decreases s.len(),
{
    if s.len() > 0 {
        if pat.len() <= s.len() {
            assert(s.take(pat.len() as int)[0] == s[0]);
        }
        lemma_replaced_absent(s.skip(1), pat, rep);
        assert(seq![s[0]] + s.skip(1) =~= s);
    }
}

/// Replacing one character by another maps the text character by character.
proof fn lemma_replaced_single(s: Seq<char>, x: char, y: char)
    ensures
        replaced(s, seq![x], seq![y]).len() == s.len(),
        forall|i: int| 0 <= i < s.len() ==> #[trigger] replaced(s, seq![x], seq![y])[i] == (if s[i] == x {
            y
        } else {
            s[i]
        }),
    decreases s.len(),
{
    if s.len() > 0 {
        let r = replaced(s, seq![x], seq![y]);
        lemma_replaced_single(s.skip(1), x, y);
        let rest = replaced(s.skip(1), seq![x], seq![y]);
        if s[0] == x {
            assert(s.take(1) =~= seq![x]);
            assert(r == seq![y] + rest);
        } else {
            assert(s.take(1)[0] == s[0]);
            assert(s.take(1) != seq![x]);
            assert(r == seq![s[0]] + rest);
        }
        assert forall|i: int| 0 <= i < s.len() implies #[trigger] r[i] == (if s[i] == x { y } else { s[i] }) by {
            if i > 0 {
                assert(r[i] == rest[i - 1]);
                assert(s.skip(1)[i - 1] == s[i]);
            }
        }
    }
}

fn rewrite_for_parser(text: &Vec<char>) -> (res: Vec<char>)
    ensures
        res@ == parser_input(text@),
{
    let double_and = vec!['&', '&'];
    let single_and = vec!['&'];
    let double_or = vec!['|', '|'];
    let single_or = vec!['|'];
    let blank = vec![' '];
    let nothing: Vec<char> = Vec::new();
    let bang = vec!['!'];
    let tilde = vec!['~'];
    proof {
        assert(double_and@ =~= seq!['&', '&']);
        assert(single_and@ =~= seq!['&']);
        assert(double_or@ =~= seq!['|', '|']);
        assert(single_or@ =~= seq!['|']);
        assert(blank@ =~= seq![' ']);
        assert(nothing@ =~= Seq::<char>::empty());
        assert(bang@ =~= seq!['!']);
        assert(tilde@ =~= seq!['~']);
    }
    let and_op = replace_all(text, &double_and, &single_and);
    let or_op = replace_all(&and_op, &double_or, &single_or);
    let no_blank = replace_all(&or_op, &blank, &nothing);
    let not_op = replace_all(&no_blank, &bang, &tilde);
    proof {
        assert(not_op@ == operators_rewritten(text@));
    }
    regex_replace_all("[a-zA-Z_0-9]+", &not_op, "[$0]")
}

/// The text `parse_formula` hands to the parser for a supported expression:
/// `&&`, `||` and `!` rewritten to `&`, `|` and `~`, blanks dropped, every
/// name put in square brackets.
pub fn parser_text(bool_expr: &str) -> (res: Vec<char>)
    ensures
        res@ == parser_input(bool_expr@),
{
    let text = chars_of(bool_expr);
    rewrite_for_parser(&text)
}

/// Reads a dependency expression. An empty expression, or one holding `[`, `]`,
/// `=` or `y`, gives `None`; otherwise `&&`, `||` and `!` are rewritten to `&`,
/// `|` and `~`, blanks are dropped, every name is put in square brackets, and
/// the result is what `rustlogic::parse` makes of that text.
pub fn parse_formula(bool_expr: &str) -> (res: Option<LogicNode>)
    requires
        parse_formula_accepts(bool_expr@),
    ensures
        res == spec_parse_formula(bool_expr@),
{
    let text = chars_of(bool_expr);
    if text.len() == 0 {
        return None;
    }
    if contains_illegal_char(&text) {
        return None;
    }
    let bracketed = rewrite_for_parser(&text);
    proof {
        lemma_parser_input_ascii(bool_expr@);
    }
    rustlogic_parse(&bracketed)
}

} // verus!
