//! The order of `String`s (character by character, by code point) and sorted
//! lists of distinct strings.

use vstd::prelude::*;

use crate::strmap::text_equal;

verus! {

/// `a` comes before `b`: at the first position where they differ `a` has the
/// smaller code point, or `a` is a proper prefix of `b`.
pub open spec fn text_less(a: Seq<char>, b: Seq<char>) -> bool
    decreases a.len(),
{
    if a.len() == 0 {
        b.len() > 0
    } else if b.len() == 0 {
        false
    } else if a[0] != b[0] {
        (a[0] as int) < (b[0] as int)
    } else {
        text_less(a.skip(1), b.skip(1))
    }
}

/// Every text comes before every later one.
pub open spec fn strictly_sorted(s: Seq<Seq<char>>) -> bool {
    forall|i: int, j: int| 0 <= i < j < s.len() ==> text_less(#[trigger] s[i], #[trigger] s[j])
}

/// The texts of a list of strings.
pub open spec fn texts(v: Seq<String>) -> Seq<Seq<char>> {
    v.map_values(|s: String| s@)
}

/// Pushing onto a sequence adds the element to its set.
pub proof fn lemma_push_to_set<A>(s: Seq<A>, x: A)
    ensures
        s.push(x).to_set() == s.to_set().insert(x),
{
    assert(s.push(x) =~= s + seq![x]);
    Seq::lemma_to_set_insert_commutes(s, x);
}

pub proof fn lemma_text_less_irreflexive(a: Seq<char>)
    ensures
        !text_less(a, a),
    decreases a.len(),
{
    if a.len() > 0 {
        lemma_text_less_irreflexive(a.skip(1));
    }
}

pub proof fn lemma_text_less_transitive(a: Seq<char>, b: Seq<char>, c: Seq<char>)
    requires
        text_less(a, b),
        text_less(b, c),
    ensures
        text_less(a, c),
    decreases a.len(),
{
    if a.len() > 0 && b.len() > 0 && c.len() > 0 {
        if a[0] == b[0] && b[0] == c[0] {
            lemma_text_less_transitive(a.skip(1), b.skip(1), c.skip(1));
        }
    }
}

pub proof fn lemma_text_less_total(a: Seq<char>, b: Seq<char>)
    ensures
        a == b || text_less(a, b) || text_less(b, a),
    decreases a.len(),
{
    if a.len() > 0 && b.len() > 0 {
        if a[0] == b[0] {
            lemma_text_less_total(a.skip(1), b.skip(1));
            if a.skip(1) == b.skip(1) {
                assert(a =~= seq![a[0]] + a.skip(1));
                assert(b =~= seq![b[0]] + b.skip(1));
            }
        }
    } else if a.len() == 0 && b.len() == 0 {
        assert(a =~= b);
    }
}

pub proof fn lemma_text_less_asymmetric(a: Seq<char>, b: Seq<char>)
    ensures
        !(text_less(a, b) && text_less(b, a)),
{
    if text_less(a, b) && text_less(b, a) {
        lemma_text_less_transitive(a, b, a);
        lemma_text_less_irreflexive(a);
    }
}

/// The order of texts is that of `String`: `a` comes before `b` exactly when,
/// after a common prefix of length `k`, either `a` ends while `b` goes on, or
/// the character of `a` at `k` has the smaller code point.
pub proof fn lemma_text_less_first_difference(a: Seq<char>, b: Seq<char>)
    ensures
        text_less(a, b) <==> exists|k: int|
            0 <= k <= a.len() && k <= b.len() && #[trigger] a.take(k) == b.take(k) && (
            (k == a.len() && k < b.len()) || (k < a.len() && k < b.len() && a[k] < b[k])),
    decreases a.len(),
{
    if a.len() == 0 {
        if b.len() > 0 {
            assert(a.take(0) =~= b.take(0));
        }
    } else if b.len() == 0 {
    } else if a[0] != b[0] {
        if a[0] < b[0] {
            assert(a.take(0) =~= b.take(0));
        }
        assert forall|k: int| 0 < k <= a.len() && k <= b.len() implies #[trigger] a.take(k) != b.take(k) by {
            assert(a.take(k)[0] == a[0]);
            assert(b.take(k)[0] == b[0]);
        }
    } else {
        let a1 = a.skip(1);
        let b1 = b.skip(1);
        lemma_text_less_first_difference(a1, b1);
        if text_less(a, b) {
            let k = choose|k: int|
                0 <= k <= a1.len() && k <= b1.len() && #[trigger] a1.take(k) == b1.take(k) && (
                (k == a1.len() && k < b1.len()) || (k < a1.len() && k < b1.len() && a1[k] < b1[k]));
            assert(a.take(k + 1) =~= seq![a[0]] + a1.take(k));
            assert(b.take(k + 1) =~= seq![b[0]] + b1.take(k));
            assert(a.take(k + 1) == b.take(k + 1));
            if k < a1.len() && k < b1.len() {
                assert(a[k + 1] == a1[k]);
                assert(b[k + 1] == b1[k]);
            }
        }
        if exists|k: int|
            0 <= k <= a.len() && k <= b.len() && #[trigger] a.take(k) == b.take(k) && (
            (k == a.len() && k < b.len()) || (k < a.len() && k < b.len() && a[k] < b[k])) {
            let k = choose|k: int|
                0 <= k <= a.len() && k <= b.len() && #[trigger] a.take(k) == b.take(k) && (
                (k == a.len() && k < b.len()) || (k < a.len() && k < b.len() && a[k] < b[k]));
            assert(k > 0);
            assert(a1.take(k - 1) =~= a.take(k).skip(1));
            assert(b1.take(k - 1) =~= b.take(k).skip(1));
            assert(a1.take(k - 1) == b1.take(k - 1));
            if k < a.len() && k < b.len() {
                assert(a1[k - 1] == a[k]);
                assert(b1[k - 1] == b[k]);
            }
        }
    }
}

/// A sorted list of names, as `exact_config` and `gen_configs` return it,
/// follows the order of `String`: of two names at positions `i < j`, the first
/// is a proper prefix of the second, or at the first position where they
/// differ its character has the smaller code point.
pub proof fn lemma_sorted_by_first_difference(s: Seq<Seq<char>>, i: int, j: int)
    requires
        strictly_sorted(s),
        0 <= i < j < s.len(),
    ensures
        exists|k: int|
            0 <= k <= s[i].len() && k <= s[j].len() && #[trigger] s[i].take(k) == s[j].take(k) && (
            (k == s[i].len() && k < s[j].len()) || (k < s[i].len() && k < s[j].len() && s[i][k] < s[j][k])),
{
    lemma_text_less_first_difference(s[i], s[j]);
}

/// Whether `a` comes before `b`.
pub fn text_lt(a: &str, b: &str) -> (res: bool)
    ensures
        res == text_less(a@, b@),
{
    let na = a.unicode_len();
    let nb = b.unicode_len();
    let mut i: usize = 0;
    proof {
        assert(a@.skip(0) =~= a@);
        assert(b@.skip(0) =~= b@);
    }
    while i < na && i < nb
        invariant
            na == a@.len(),
            nb == b@.len(),
            i <= na,
            i <= nb,
            text_less(a@, b@) == text_less(a@.skip(i as int), b@.skip(i as int)),
        decreases na - i,
    {
        let ca = a.get_char(i);
        let cb = b.get_char(i);
        if ca != cb {
            proof {
                assert(a@.skip(i as int)[0] == ca);
                assert(b@.skip(i as int)[0] == cb);
            }
            return ca < cb;
        }
        proof {
            assert(a@.skip(i as int).skip(1) =~= a@.skip(i + 1));
            assert(b@.skip(i as int).skip(1) =~= b@.skip(i + 1));
        }
        i = i + 1;
    }
    i < nb
}

/// Puts `s` into the sorted list `v` at its place, unless `v` holds it already.
pub fn insert_sorted(v: &mut Vec<String>, s: String)
    requires
        strictly_sorted(texts(old(v)@)),
    ensures
        strictly_sorted(texts(final(v)@)),
        texts(final(v)@).to_set() == texts(old(v)@).to_set().insert(s@),
{
    let ghost old_texts = texts(v@);
    let mut lo: usize = 0;
    let mut hi: usize = v.len();
    while lo < hi
        invariant
            0 <= lo <= hi <= v@.len(),
            texts(v@) == old_texts,
            strictly_sorted(old_texts),
            forall|i: int| 0 <= i < lo ==> text_less(#[trigger] old_texts[i], s@),
            forall|i: int| hi <= i < v@.len() ==> !text_less(#[trigger] old_texts[i], s@),
        decreases hi - lo,
    {
        let mid = lo + (hi - lo) / 2;
        if text_lt(v[mid].as_str(), s.as_str()) {
            proof {
                assert forall|i: int| 0 <= i < mid + 1 implies text_less(#[trigger] old_texts[i], s@) by {
                    if i < mid {
                        lemma_text_less_transitive(old_texts[i], old_texts[mid as int], s@);
                    }
                }
            }
            lo = mid + 1;
        } else {
            proof {
                assert forall|i: int| mid <= i < v@.len() implies !text_less(#[trigger] old_texts[i], s@) by {
                    if i > mid && text_less(old_texts[i], s@) {
                        lemma_text_less_total(old_texts[mid as int], s@);
                        if old_texts[mid as int] == s@ {
                            lemma_text_less_asymmetric(old_texts[mid as int], old_texts[i]);
                        } else {
                            lemma_text_less_transitive(s@, old_texts[mid as int], old_texts[i]);
                            lemma_text_less_asymmetric(s@, old_texts[i]);
                        }
                    }
                }
            }
            hi = mid;
        }
    }
    if lo < v.len() && text_equal(v[lo].as_str(), s.as_str()) {
        proof {
            assert(texts(v@).to_set() =~= old_texts.to_set().insert(s@)) by {
                assert(old_texts[lo as int] == s@);
            }
        }
        return;
    }
    let ghost pos = lo as int;
    proof {
        if pos < old_texts.len() {
            lemma_text_less_total(old_texts[pos], s@);
        }
        assert forall|k: int| pos <= k < old_texts.len() implies text_less(s@, #[trigger] old_texts[k]) by {
            if k > pos {
                lemma_text_less_transitive(s@, old_texts[pos], old_texts[k]);
            }
        }
    }
    v.insert(lo, s);
    proof {
        let nt = texts(v@);
        assert(nt =~= old_texts.insert(pos, s@));
        assert forall|i: int, j: int| 0 <= i < j < nt.len() implies text_less(#[trigger] nt[i], #[trigger] nt[j]) by {
            if j < pos {
            } else if j == pos {
            } else if i < pos {
                assert(nt[j] == old_texts[j - 1]);
                lemma_text_less_transitive(nt[i], s@, nt[j]);
            } else if i == pos {
                assert(nt[j] == old_texts[j - 1]);
            } else {
                assert(nt[i] == old_texts[i - 1]);
                assert(nt[j] == old_texts[j - 1]);
            }
        }
        assert(nt.to_set() =~= old_texts.to_set().insert(s@)) by {
            assert forall|x: Seq<char>| nt.to_set().contains(x) == old_texts.to_set().insert(s@).contains(x) by {
                if old_texts.contains(x) {
                    let k = choose|k: int| 0 <= k < old_texts.len() && old_texts[k] == x;
                    if k < pos {
                        assert(nt[k] == x);
                    } else {
                        assert(nt[k + 1] == x);
                    }
                }
                if nt.contains(x) {
                    let k = choose|k: int| 0 <= k < nt.len() && nt[k] == x;
                    if k < pos {
                        assert(old_texts[k] == x);
                    } else if k > pos {
                        assert(old_texts[k - 1] == x);
                    }
                }
                if x == s@ {
                    assert(nt[pos] == x);
                }
            }
        }
    }
}

} // verus!
