//! Words scraped from terminal panes: extraction, filtering, ordering.
//!
//! Pane text is split into maximal runs of word-like characters (letters,
//! digits, underscore, hyphen, dot); runs that are long enough and not pure
//! numbers are kept, sorted, and deduplicated.  Capturing the pane text
//! itself is a subprocess affair and stays with the caller.

use vstd::prelude::*;

verus! {

broadcast use vstd::string::group_string_axioms;

use crate::basecode_lsp::util::all_digits;
use crate::basecode_lsp::util::contains_chars;
use crate::basecode_lsp::util::distinct_words;
use crate::basecode_lsp::util::token_runs;

/// A character that a pane word may contain.
pub open spec fn pane_word_char(c: char) -> bool {
    ('a' <= c && c <= 'z') || ('A' <= c && c <= 'Z') || ('0' <= c && c <= '9') || c == '_' || c
        == '-' || c == '.'
}

/// The pane-word character test as a value.
pub open spec fn pane_word_char_fn() -> spec_fn(char) -> bool {
    |c: char| pane_word_char(c)
}

/// The maximal pane-word runs of one pane's text, in order.
///
/// Relies on `regex::Regex::find_iter`: for the pattern
/// `[a-zA-Z0-9_\-\.]+` its successive non-overlapping, leftmost matches are
/// exactly the maximal runs of those characters; the pattern is a fixed
/// valid literal, so compiling it cannot fail.
#[verifier::external_body]
pub fn capture_alphanumeric_sequences(input: &str) -> (r: Vec<String>)
    ensures
        r.deep_view() == token_runs(input@, pane_word_char_fn()),
{
    let re = regex::Regex::new(r"[a-zA-Z0-9_\-\.]+").unwrap();
    re.find_iter(input).map(|mat| mat.as_str().to_string()).collect()
}

/// Ascending lexicographic order on character sequences, by code point.
pub open spec fn lex_leq(a: Seq<char>, b: Seq<char>) -> bool
    decreases a.len(),
{
    if a.len() == 0 {
        true
    } else if b.len() == 0 {
        false
    } else if a[0] != b[0] {
        (a[0] as u32) < (b[0] as u32)
    } else {
        lex_leq(a.drop_first(), b.drop_first())
    }
}

/// Sort the strings in ascending order.
///
/// Relies on `<[T]>::sort` and `String`'s `Ord`: sorting reorders the
/// vector into ascending lexicographic order (strings compare by their
/// bytes, which for UTF-8 is code-point order) and keeps exactly the same
/// elements.
#[verifier::external_body]
pub(crate) fn sort_strings(v: &mut Vec<String>)
    ensures
        final(v)@.to_multiset() == old(v)@.to_multiset(),
        final(v)@.len() == old(v)@.len(),
        forall|k: int|
            0 <= k < final(v)@.len() - 1 ==> lex_leq(
                #[trigger] final(v).deep_view()[k],
                final(v).deep_view()[k + 1],
            ),
        forall|w: Seq<char>|
            contains_chars(final(v).deep_view(), w) == contains_chars(old(v).deep_view(), w),
{
    v.sort();
}

/// Words kept from the panes: at least three characters and not a pure
/// number.
pub open spec fn pane_word_kept(w: Seq<char>) -> bool {
    w.len() >= 3 && !all_digits(w)
}

/// All pane-word runs of all the pane texts, in order.
pub open spec fn pane_words(panes: Seq<Seq<char>>) -> Seq<Seq<char>>
    decreases panes.len(),
{
    if panes.len() == 0 {
        Seq::empty()
    } else {
        token_runs(panes[0], pane_word_char_fn()) + pane_words(panes.drop_first())
    }
}

proof fn lemma_pane_words_push(panes: Seq<Seq<char>>, p: Seq<char>)
    ensures
        pane_words(panes.push(p)) == pane_words(panes) + token_runs(p, pane_word_char_fn()),
    decreases panes.len(),
{
    if panes.len() == 0 {
        assert(panes.push(p).len() == 1);
        assert(panes.push(p)[0] == p);
        assert(panes.push(p).drop_first() =~= Seq::<Seq<char>>::empty());
        assert(pane_words(Seq::<Seq<char>>::empty()) == Seq::<Seq<char>>::empty());
        assert(pane_words(panes) == Seq::<Seq<char>>::empty());
        assert(pane_words(panes.push(p)) == token_runs(p, pane_word_char_fn())
            + Seq::<Seq<char>>::empty());
        assert(token_runs(p, pane_word_char_fn()) + Seq::<Seq<char>>::empty()
            =~= Seq::<Seq<char>>::empty() + token_runs(p, pane_word_char_fn()));
    } else {
        assert(panes.push(p)[0] == panes[0]);
        assert(panes.push(p).drop_first() =~= panes.drop_first().push(p));
        lemma_pane_words_push(panes.drop_first(), p);
        assert(token_runs(panes[0], pane_word_char_fn()) + (pane_words(panes.drop_first())
            + token_runs(p, pane_word_char_fn())) =~= (token_runs(panes[0], pane_word_char_fn())
            + pane_words(panes.drop_first())) + token_runs(p, pane_word_char_fn()));
    }
}

/// Keep the words that pass the kept-word policy, in order.
fn filter_kept(v: &Vec<String>) -> (r: Vec<String>)
    ensures
        forall|w: Seq<char>|
            #[trigger] contains_chars(r.deep_view(), w) == (contains_chars(v.deep_view(), w)
                && pane_word_kept(w)),
{
    let n = v.len();
    let mut r: Vec<String> = Vec::new();
    let mut i: usize = 0;
    while i < n
        invariant
            i <= n,
            n == v@.len(),
            forall|w: Seq<char>|
                #[trigger] contains_chars(r.deep_view(), w) == (contains_chars(
                    v.deep_view().take(i as int),
                    w,
                ) && pane_word_kept(w)),
        decreases n - i,
    {
        let ghost w = v.deep_view()[i as int];
        let cs = crate::text::str_chars(v[i].as_str());
        let keep = cs.len() >= 3 && !{
            let m = cs.len();
            let mut k: usize = 0;
            let mut digits = true;
            while k < m
                invariant
                    k <= m,
                    m == cs@.len(),
                    digits ==> (forall|j: int|
                        0 <= j < k ==> crate::basecode_lsp::util::decimal_digit(
                            #[trigger] cs@[j],
                        )),
                    !digits ==> !all_digits(cs@),
                decreases m - k,
            {
                if !(cs[k] >= '0' && cs[k] <= '9') {
                    assert(!crate::basecode_lsp::util::decimal_digit(cs@[k as int]));
                    digits = false;
                    k = m;
                } else {
                    k = k + 1;
                }
            }
            digits
        };
        assert(keep == pane_word_kept(w));
        let ghost dv0 = r.deep_view();
        if keep {
            r.push(v[i].clone());
            assert(r.deep_view() =~= dv0.push(w));
        }
        proof {
            let tk1 = v.deep_view().take(i + 1);
            assert(tk1 =~= v.deep_view().take(i as int).push(w));
            assert forall|u: Seq<char>| #[trigger] contains_chars(r.deep_view(), u) == (
            contains_chars(tk1, u) && pane_word_kept(u)) by {
                lemma_contains_push(v.deep_view().take(i as int), w, u);
                if keep {
                    lemma_contains_push(dv0, w, u);
                } else {
                    assert(r.deep_view() == dv0);
                }
            }
        }
        i = i + 1;
    }
    assert(v.deep_view().take(n as int) =~= v.deep_view());
    r
}

/// Membership in a sequence extended by one element.
pub(crate) proof fn lemma_contains_push(s: Seq<Seq<char>>, x: Seq<char>, w: Seq<char>)
    ensures
        contains_chars(s.push(x), w) == (contains_chars(s, w) || x == w),
{
    if contains_chars(s.push(x), w) {
        let k = choose|k: int| 0 <= k < s.push(x).len() && s.push(x)[k] == w;
        if k < s.len() {
            assert(s[k] == w);
        }
    }
    if contains_chars(s, w) {
        let k = choose|k: int| 0 <= k < s.len() && s[k] == w;
        assert(s.push(x)[k] == w);
    }
    if x == w {
        assert(s.push(x)[s.len() as int] == w);
    }
}

/// Drop consecutive equal strings of a sorted vector.
pub(crate) fn dedup_sorted(v: &mut Vec<String>)
    requires
        forall|k: int|
            0 <= k < old(v)@.len() - 1 ==> lex_leq(
                #[trigger] old(v).deep_view()[k],
                old(v).deep_view()[k + 1],
            ),
    ensures
        forall|k: int|
            0 <= k < final(v)@.len() - 1 ==> lex_leq(
                #[trigger] final(v).deep_view()[k],
                final(v).deep_view()[k + 1],
            ) && final(v).deep_view()[k] != final(v).deep_view()[k + 1],
        forall|w: Seq<char>|
            contains_chars(final(v).deep_view(), w) == contains_chars(old(v).deep_view(), w),
        distinct_words(final(v).deep_view()),
{
    let ghost dv = v.deep_view();
    let n = v.len();
    let mut out: Vec<String> = Vec::new();
    let mut i: usize = 0;
    while i < n
        invariant
            dv == v.deep_view(),
            i <= n,
            n == v@.len(),
            forall|k: int|
                0 <= k < dv.len() - 1 ==> lex_leq(#[trigger] dv[k], dv[k + 1]),
            i >= 1 ==> out.deep_view().len() >= 1 && out.deep_view().last() == dv[i - 1],
            i == 0 ==> out.deep_view().len() == 0,
            forall|k: int|
                0 <= k < out.deep_view().len() - 1 ==> lex_leq(
                    #[trigger] out.deep_view()[k],
                    out.deep_view()[k + 1],
                ) && out.deep_view()[k] != out.deep_view()[k + 1],
            forall|w: Seq<char>|
                contains_chars(out.deep_view(), w) == contains_chars(dv.take(i as int), w),
            forall|k: int|
                0 <= k < out.deep_view().len() ==> lex_leq(#[trigger] out.deep_view()[k], out.deep_view()[out.deep_view().len() - 1]),
        decreases n - i,
    {
        let ghost w = dv[i as int];
        let ghost odv0 = out.deep_view();
        let same = if out.len() == 0 {
            false
        } else {
            let last_idx = out.len() - 1;
            out[last_idx] == v[i]
        };
        proof {
            assert(dv.take(i + 1) =~= dv.take(i as int).push(w));
        }
        if !same {
            out.push(v[i].clone());
            assert(out.deep_view() =~= odv0.push(w));
            proof {
                lemma_lex_leq_refl(w);
                assert forall|k: int|
                    0 <= k < out.deep_view().len() implies lex_leq(
                    #[trigger] out.deep_view()[k],
                    out.deep_view()[out.deep_view().len() - 1],
                ) by {
                    assert(out.deep_view()[out.deep_view().len() - 1] == w);
                    if k < odv0.len() {
                        assert(out.deep_view()[k] == odv0[k]);
                        assert(lex_leq(odv0[k], odv0[odv0.len() - 1]));
                        assert(odv0.last() == dv[i - 1]);
                        assert(lex_leq(dv[i - 1], dv[i as int]));
                        lemma_lex_leq_trans(odv0[k], dv[i - 1], dv[i as int]);
                    } else {
                        assert(out.deep_view()[k] == w);
                    }
                }
            }
        } else {
            proof {
                assert(odv0.last() == w);
                assert(contains_chars(odv0, w));
            }
        }
        proof {
            assert forall|u: Seq<char>| contains_chars(out.deep_view(), u) == contains_chars(
                dv.take(i + 1),
                u,
            ) by {
                lemma_contains_push(dv.take(i as int), w, u);
                if !same {
                    lemma_contains_push(odv0, w, u);
                }
            }
        }
        i = i + 1;
    }
    assert(dv.take(n as int) =~= dv);
    proof {
        lemma_sorted_adjacent_distinct(out.deep_view());
    }
    *v = out;
}

/// Lexicographic order is antisymmetric.
proof fn lemma_lex_leq_antisym(a: Seq<char>, b: Seq<char>)
    requires
        lex_leq(a, b),
        lex_leq(b, a),
    ensures
        a == b,
    decreases a.len(),
{
    if a.len() == 0 {
        assert(b.len() == 0);
        assert(a =~= b);
    } else {
        assert(b.len() > 0);
        assert(a[0] == b[0]);
        lemma_lex_leq_antisym(a.drop_first(), b.drop_first());
        assert(a.len() == b.len());
        assert forall|k: int| 0 <= k < a.len() implies a[k] == b[k] by {
            if k >= 1 {
                assert(a[k] == a.drop_first()[k - 1]);
                assert(b[k] == b.drop_first()[k - 1]);
            }
        }
        assert(a =~= b);
    }
}

/// In a sorted sequence every earlier word precedes every later one.
proof fn lemma_sorted_pair(ws: Seq<Seq<char>>, k1: int, k2: int)
    requires
        forall|k: int| 0 <= k < ws.len() - 1 ==> lex_leq(#[trigger] ws[k], ws[k + 1]),
        0 <= k1 <= k2 < ws.len(),
    ensures
        lex_leq(ws[k1], ws[k2]),
    decreases k2 - k1,
{
    if k1 == k2 {
        lemma_lex_leq_refl(ws[k1]);
    } else {
        lemma_sorted_pair(ws, k1, k2 - 1);
        assert(lex_leq(ws[k2 - 1], ws[k2]));
        lemma_lex_leq_trans(ws[k1], ws[k2 - 1], ws[k2]);
    }
}

/// A sorted sequence whose neighbours differ has no repeats at all.
proof fn lemma_sorted_adjacent_distinct(ws: Seq<Seq<char>>)
    requires
        forall|k: int|
            0 <= k < ws.len() - 1 ==> lex_leq(#[trigger] ws[k], ws[k + 1]) && ws[k] != ws[k + 1],
    ensures
        distinct_words(ws),
{
    assert forall|k1: int, k2: int| 0 <= k1 < k2 < ws.len() implies (#[trigger] ws[k1]) != (
    #[trigger] ws[k2]) by {
        if ws[k1] == ws[k2] {
            assert(lex_leq(ws[k1], ws[k1 + 1]));
            lemma_sorted_pair(ws, k1 + 1, k2);
            assert(lex_leq(ws[k1 + 1], ws[k2]));
            lemma_lex_leq_antisym(ws[k1], ws[k1 + 1]);
        }
    }
}

/// Lexicographic order is reflexive.
proof fn lemma_lex_leq_refl(a: Seq<char>)
    ensures
        lex_leq(a, a),
    decreases a.len(),
{
    if a.len() > 0 {
        lemma_lex_leq_refl(a.drop_first());
    }
}

/// Lexicographic order is transitive.
proof fn lemma_lex_leq_trans(a: Seq<char>, b: Seq<char>, c: Seq<char>)
    requires
        lex_leq(a, b),
        lex_leq(b, c),
    ensures
        lex_leq(a, c),
    decreases a.len(),
{
    if a.len() > 0 && b.len() > 0 && c.len() > 0 {
        if a[0] == b[0] && b[0] == c[0] {
            lemma_lex_leq_trans(a.drop_first(), b.drop_first(), c.drop_first());
        }
    }
}

/// The distinct pane words worth suggesting, in ascending order: every
/// maximal word-character run of the given pane texts that has at least
/// three characters and is not a pure number, each exactly once.
pub fn retrieve_tmux_words(pane_contents: &Vec<String>) -> (r: Vec<String>)
    ensures
        forall|w: Seq<char>|
            #[trigger] contains_chars(r.deep_view(), w) == (contains_chars(
                pane_words(pane_contents.deep_view()),
                w,
            ) && pane_word_kept(w)),
        forall|k: int|
            0 <= k < r@.len() - 1 ==> lex_leq(#[trigger] r.deep_view()[k], r.deep_view()[k + 1])
                && r.deep_view()[k] != r.deep_view()[k + 1],
        distinct_words(r.deep_view()),
{
    let n = pane_contents.len();
    let mut result: Vec<String> = Vec::new();
    let mut i: usize = 0;
    assert(pane_contents.deep_view().take(0) =~= Seq::<Seq<char>>::empty());
    while i < n
        invariant
            i <= n,
            n == pane_contents@.len(),
            result.deep_view() == pane_words(pane_contents.deep_view().take(i as int)),
        decreases n - i,
    {
        let ghost p = pane_contents.deep_view()[i as int];
        let mut words = capture_alphanumeric_sequences(pane_contents[i].as_str());
        let ghost rdv0 = result.deep_view();
        let ghost wdv = words.deep_view();
        result.append(&mut words);
        proof {
            assert(result.deep_view() =~= rdv0 + wdv);
            let tk = pane_contents.deep_view().take(i as int);
            assert(pane_contents.deep_view().take(i + 1) =~= tk.push(p));
            lemma_pane_words_push(tk, p);
        }
        i = i + 1;
    }
    assert(pane_contents.deep_view().take(n as int) =~= pane_contents.deep_view());
    let mut kept = filter_kept(&result);
    sort_strings(&mut kept);
    dedup_sorted(&mut kept);
    kept
}

} // verus!
