//! Words scraped from terminal panes for the language server, under the
//! same acceptance policy as document tokens.
//!
//! Here a pane word is a maximal run of ASCII letters and digits; runs are
//! kept when they pass the token policy for the configured minimum length,
//! then sorted and deduplicated.  Capturing the pane text itself is a
//! subprocess affair and stays with the caller.

use vstd::prelude::*;

verus! {

broadcast use vstd::string::group_string_axioms;

use crate::basecode_lsp::util::contains_chars;
use crate::basecode_lsp::util::is_token;
use crate::basecode_lsp::util::spec_is_token;
use crate::basecode_lsp::util::token_runs;
use crate::text::str_chars;
use crate::basecode_lsp::util::distinct_words;
use crate::tmux::dedup_sorted;
use crate::tmux::lemma_contains_push;
use crate::tmux::lex_leq;
use crate::tmux::sort_strings;

/// An ASCII letter or digit.
pub open spec fn ascii_alnum_char(c: char) -> bool {
    ('a' <= c && c <= 'z') || ('A' <= c && c <= 'Z') || ('0' <= c && c <= '9')
}

/// The ASCII letter-or-digit test as a value.
pub open spec fn ascii_alnum_fn() -> spec_fn(char) -> bool {
    |c: char| ascii_alnum_char(c)
}

/// The maximal letter-and-digit runs of one pane's text, in order.
///
/// Relies on `regex::Regex::find_iter`: for the pattern `[a-zA-Z0-9]+` its
/// successive non-overlapping, leftmost matches are exactly the maximal
/// runs of those characters; the pattern is a fixed valid literal, so
/// compiling it cannot fail.
#[verifier::external_body]
pub fn capture_alphanumeric_sequences(input: &str) -> (r: Vec<String>)
    ensures
        r.deep_view() == token_runs(input@, ascii_alnum_fn()),
{
    let re = regex::Regex::new(r"[a-zA-Z0-9]+").unwrap();
    re.find_iter(input).map(|mat| mat.as_str().to_string()).collect()
}

/// All letter-and-digit runs of all the pane texts, in order.
pub open spec fn pane_words(panes: Seq<Seq<char>>) -> Seq<Seq<char>>
    decreases panes.len(),
{
    if panes.len() == 0 {
        Seq::empty()
    } else {
        token_runs(panes[0], ascii_alnum_fn()) + pane_words(panes.drop_first())
    }
}

proof fn lemma_pane_words_push(panes: Seq<Seq<char>>, p: Seq<char>)
    ensures
        pane_words(panes.push(p)) == pane_words(panes) + token_runs(p, ascii_alnum_fn()),
    decreases panes.len(),
{
    if panes.len() == 0 {
        assert(panes.push(p).len() == 1);
        assert(panes.push(p)[0] == p);
        assert(panes.push(p).drop_first() =~= Seq::<Seq<char>>::empty());
        assert(pane_words(Seq::<Seq<char>>::empty()) == Seq::<Seq<char>>::empty());
        assert(pane_words(panes) == Seq::<Seq<char>>::empty());
        assert(pane_words(panes.push(p)) == token_runs(p, ascii_alnum_fn())
            + Seq::<Seq<char>>::empty());
        assert(token_runs(p, ascii_alnum_fn()) + Seq::<Seq<char>>::empty()
            =~= Seq::<Seq<char>>::empty() + token_runs(p, ascii_alnum_fn()));
    } else {
        assert(panes.push(p)[0] == panes[0]);
        assert(panes.push(p).drop_first() =~= panes.drop_first().push(p));
        lemma_pane_words_push(panes.drop_first(), p);
        assert(token_runs(panes[0], ascii_alnum_fn()) + (pane_words(panes.drop_first())
            + token_runs(p, ascii_alnum_fn())) =~= (token_runs(panes[0], ascii_alnum_fn())
            + pane_words(panes.drop_first())) + token_runs(p, ascii_alnum_fn()));
    }
}

/// Keep the words that pass the token policy for `min_len`, in order.
fn filter_tokens(v: &Vec<String>, min_len: usize) -> (r: Vec<String>)
    ensures
        forall|w: Seq<char>|
            #[trigger] contains_chars(r.deep_view(), w) == (contains_chars(v.deep_view(), w)
                && spec_is_token(w, min_len as nat)),
{
    let n = v.len();
    let mut r: Vec<String> = Vec::new();
    let mut i: usize = 0;
    while i < n
        invariant
            i <= n,
            n == v@.len(),
            forall|w: Seq<char>|
                #[trigger] contains_chars(r.deep_view(), w) == (contains_chars(
                    v.deep_view().take(i as int),
                    w,
                ) && spec_is_token(w, min_len as nat)),
        decreases n - i,
    {
        let ghost w = v.deep_view()[i as int];
        let cs = str_chars(v[i].as_str());
        let keep = is_token(&cs, min_len);
        assert(keep == spec_is_token(w, min_len as nat));
        let ghost dv0 = r.deep_view();
        if keep {
            r.push(v[i].clone());
            assert(r.deep_view() =~= dv0.push(w));
        }
        proof {
            let tk1 = v.deep_view().take(i + 1);
            assert(tk1 =~= v.deep_view().take(i as int).push(w));
            assert forall|u: Seq<char>| #[trigger] contains_chars(r.deep_view(), u) == (
            contains_chars(tk1, u) && spec_is_token(u, min_len as nat)) by {
                lemma_contains_push(v.deep_view().take(i as int), w, u);
                if keep {
                    lemma_contains_push(dv0, w, u);
                } else {
                    assert(r.deep_view() == dv0);
                }
            }
        }
        i = i + 1;
    }
    assert(v.deep_view().take(n as int) =~= v.deep_view());
    r
}

/// The distinct pane words worth suggesting, in ascending order: every
/// maximal letter-and-digit run of the given pane texts that passes the
/// token policy for `min_len`, each exactly once.
pub fn retrieve_tmux_words(pane_contents: &Vec<String>, min_len: usize) -> (r: Vec<String>)
    ensures
        forall|w: Seq<char>|
            #[trigger] contains_chars(r.deep_view(), w) == (contains_chars(
                pane_words(pane_contents.deep_view()),
                w,
            ) && spec_is_token(w, min_len as nat)),
        forall|k: int|
            0 <= k < r@.len() - 1 ==> lex_leq(#[trigger] r.deep_view()[k], r.deep_view()[k + 1])
                && r.deep_view()[k] != r.deep_view()[k + 1],
        distinct_words(r.deep_view()),
{
    let n = pane_contents.len();
    let mut result: Vec<String> = Vec::new();
    let mut i: usize = 0;
    assert(pane_contents.deep_view().take(0) =~= Seq::<Seq<char>>::empty());
    while i < n
        invariant
            i <= n,
            n == pane_contents@.len(),
            result.deep_view() == pane_words(pane_contents.deep_view().take(i as int)),
        decreases n - i,
    {
        let ghost p = pane_contents.deep_view()[i as int];
        let mut words = capture_alphanumeric_sequences(pane_contents[i].as_str());
        let ghost rdv0 = result.deep_view();
        let ghost wdv = words.deep_view();
        result.append(&mut words);
        proof {
            assert(result.deep_view() =~= rdv0 + wdv);
            let tk = pane_contents.deep_view().take(i as int);
            assert(pane_contents.deep_view().take(i + 1) =~= tk.push(p));
            lemma_pane_words_push(tk, p);
        }
        i = i + 1;
    }
    assert(pane_contents.deep_view().take(n as int) =~= pane_contents.deep_view());
    let mut kept = filter_tokens(&result, min_len);
    sort_strings(&mut kept);
    dedup_sorted(&mut kept);
    kept
}

} // verus!
