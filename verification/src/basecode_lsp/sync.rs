//! Keeping the word index in step with the open documents.
//!
//! Each open document's full text is stored; on every change the tokens of
//! the previously stored text are retracted from the trie and the tokens of
//! the new text are counted, so a word stays suggestible exactly while some
//! open document still contributes it.

use vstd::prelude::*;

verus! {

broadcast use {vstd::string::group_string_axioms, crate::trie::lemma_count_le_max};

use crate::basecode_lsp::util::contains_chars;
use crate::basecode_lsp::util::distinct_words;
use crate::basecode_lsp::util::filter_visible_words;
use crate::basecode_lsp::util::get_possible_current_word;
use crate::basecode_lsp::util::get_word_prefix;
use crate::basecode_lsp::util::lemma_filter_contains_chars;
use crate::basecode_lsp::util::lemma_filter_distinct;
use crate::basecode_lsp::util::line_at;
use crate::basecode_lsp::util::not_visible_pred;
use crate::basecode_lsp::util::process_token;
use crate::basecode_lsp::util::spec_tokens;
use crate::basecode_lsp::util::spec_visible_words;
use crate::basecode_lsp::util::spec_word_prefix;
use crate::basecode_lsp::util::split_lines;
use crate::trie::contains_word;
use crate::trie::dec_count;
use crate::trie::inc_count;
use crate::trie::Trie;

/// The word index together with the documents that feed it.
pub struct DocumentSync {
    documents: Vec<(String, String)>,
    trie: Trie,
    min_word_len: usize,
}

/// A count raised `m` times, saturating as single insertions do.
pub open spec fn inc_by(n: nat, m: nat) -> nat {
    if n + m <= u64::MAX {
        (n + m) as nat
    } else {
        u64::MAX as nat
    }
}

/// A count lowered `m` times, with a floor of zero.
pub open spec fn dec_by(n: nat, m: nat) -> nat {
    if n >= m {
        (n - m) as nat
    } else {
        0
    }
}

/// How many entries of `ts` are the word `w`.
pub open spec fn count_matches(ts: Seq<Seq<char>>, w: Seq<char>) -> nat
    decreases ts.len(),
{
    if ts.len() == 0 {
        0
    } else {
        (if ts[0] == w {
            1nat
        } else {
            0nat
        }) + count_matches(ts.drop_first(), w)
    }
}

/// The tokens of a sequence of text fragments, in order.
pub open spec fn tokens_of_all(frags: Seq<Seq<char>>, min_len: nat) -> Seq<Seq<char>>
    decreases frags.len(),
{
    if frags.len() == 0 {
        Seq::empty()
    } else {
        spec_tokens(frags[0], min_len) + tokens_of_all(frags.drop_first(), min_len)
    }
}

/// One more matching entry raises the count by one.
proof fn lemma_count_matches_push(ts: Seq<Seq<char>>, x: Seq<char>, w: Seq<char>)
    ensures
        count_matches(ts.push(x), w) == count_matches(ts, w) + (if x == w {
            1nat
        } else {
            0nat
        }),
    decreases ts.len(),
{
    if ts.len() == 0 {
        assert(ts.push(x).len() == 1);
        assert(ts.push(x)[0] == x);
        assert(ts.push(x).drop_first() =~= Seq::<Seq<char>>::empty());
        assert(count_matches(Seq::<Seq<char>>::empty(), w) == 0);
        assert(count_matches(ts, w) == 0);
    } else {
        assert(ts.push(x)[0] == ts[0]);
        assert(ts.push(x).drop_first() =~= ts.drop_first().push(x));
        lemma_count_matches_push(ts.drop_first(), x, w);
    }
}

/// Matches in a concatenation are the matches of the parts.
proof fn lemma_count_matches_add(a: Seq<Seq<char>>, b: Seq<Seq<char>>, w: Seq<char>)
    ensures
        count_matches(a + b, w) == count_matches(a, w) + count_matches(b, w),
    decreases a.len(),
{
    if a.len() == 0 {
        assert(a + b =~= b);
    } else {
        assert((a + b)[0] == a[0]);
        assert((a + b).drop_first() =~= a.drop_first() + b);
        lemma_count_matches_add(a.drop_first(), b, w);
    }
}

/// One more fragment appends its tokens.
proof fn lemma_tokens_of_all_push(frags: Seq<Seq<char>>, f: Seq<char>, min_len: nat)
    ensures
        tokens_of_all(frags.push(f), min_len) == tokens_of_all(frags, min_len) + spec_tokens(
            f,
            min_len,
        ),
    decreases frags.len(),
{
    if frags.len() == 0 {
        assert(frags.push(f).len() == 1);
        assert(frags.push(f)[0] == f);
        assert(frags.push(f).drop_first() =~= Seq::<Seq<char>>::empty());
        assert(tokens_of_all(Seq::<Seq<char>>::empty(), min_len) == Seq::<Seq<char>>::empty());
        assert(tokens_of_all(frags, min_len) == Seq::<Seq<char>>::empty());
        assert(tokens_of_all(frags.push(f), min_len) == spec_tokens(f, min_len)
            + Seq::<Seq<char>>::empty());
        assert(spec_tokens(f, min_len) + Seq::<Seq<char>>::empty() =~= Seq::<Seq<char>>::empty()
            + spec_tokens(f, min_len));
    } else {
        assert(frags.push(f)[0] == frags[0]);
        assert(frags.push(f).drop_first() =~= frags.drop_first().push(f));
        lemma_tokens_of_all_push(frags.drop_first(), f, min_len);
        assert(spec_tokens(frags[0], min_len) + (tokens_of_all(frags.drop_first(), min_len)
            + spec_tokens(f, min_len)) =~= (spec_tokens(frags[0], min_len) + tokens_of_all(
            frags.drop_first(),
            min_len,
        )) + spec_tokens(f, min_len));
    }
}

/// The content stored under the first pair whose key is `uri`, if any.
spec fn find_doc(s: Seq<(String, String)>, uri: Seq<char>) -> Option<Seq<char>>
    decreases s.len(),
{
    if s.len() == 0 {
        None
    } else if s[0].0@ == uri {
        Some(s[0].1@)
    } else {
        find_doc(s.drop_first(), uri)
    }
}

/// `find_doc` returns `None` exactly when no pair carries the key.
proof fn lemma_find_doc_none(s: Seq<(String, String)>, uri: Seq<char>)
    ensures
        find_doc(s, uri) is None <==> (forall|j: int|
            0 <= j < s.len() ==> (#[trigger] s[j]).0@ != uri),
    decreases s.len(),
{
    if s.len() > 0 {
        lemma_find_doc_none(s.drop_first(), uri);
        if find_doc(s, uri) is None {
            assert forall|j: int| 0 <= j < s.len() implies (#[trigger] s[j]).0@ != uri by {
                if j >= 1 {
                    assert(s.drop_first()[j - 1] == s[j]);
                }
            }
        } else {
            if s[0].0@ != uri {
                let j = choose|j: int|
                    0 <= j < s.drop_first().len() && (#[trigger] s.drop_first()[j]).0@ == uri;
                assert(s[j + 1] == s.drop_first()[j]);
            }
        }
    }
}

/// When the key first occurs at index `i`, `find_doc` returns that content.
proof fn lemma_find_doc_at(s: Seq<(String, String)>, uri: Seq<char>, i: int)
    requires
        0 <= i < s.len(),
        s[i].0@ == uri,
        forall|j: int| 0 <= j < i ==> (#[trigger] s[j]).0@ != uri,
    ensures
        find_doc(s, uri) == Some(s[i].1@),
    decreases i,
{
    if i > 0 {
        assert(forall|j: int| 0 <= j < i - 1 ==> #[trigger] s.drop_first()[j] == s[j + 1]);
        lemma_find_doc_at(s.drop_first(), uri, i - 1);
    }
}

/// Replacing the content at index `i` (keeping its key) rebinds that key and
/// leaves every other key's lookup unchanged.
proof fn lemma_find_doc_update(s: Seq<(String, String)>, i: int, t: String, u: Seq<char>)
    requires
        0 <= i < s.len(),
        forall|j: int| 0 <= j < i ==> (#[trigger] s[j]).0@ != s[i].0@,
    ensures
        find_doc(s.update(i, (s[i].0, t)), u) == if u == s[i].0@ {
            Some(t@)
        } else {
            find_doc(s, u)
        },
    decreases i,
{
    let s2 = s.update(i, (s[i].0, t));
    if i == 0 {
        if u != s[0].0@ {
            assert(s2.drop_first() =~= s.drop_first());
        }
    } else {
        assert(s2[0] == s[0]);
        if u != s[0].0@ {
            assert(s2.drop_first() =~= s.drop_first().update(i - 1, (s[i].0, t)));
            assert(forall|j: int| 0 <= j < i - 1 ==> #[trigger] s.drop_first()[j] == s[j + 1]);
            assert(s.drop_first()[i - 1] == s[i]);
            lemma_find_doc_update(s.drop_first(), i - 1, t, u);
        }
    }
}

/// Appending a pair with a fresh key binds that key and leaves every other
/// key's lookup unchanged.
proof fn lemma_find_doc_push(s: Seq<(String, String)>, p: (String, String), u: Seq<char>)
    requires
        forall|j: int| 0 <= j < s.len() ==> (#[trigger] s[j]).0@ != p.0@,
    ensures
        find_doc(s.push(p), u) == if u == p.0@ {
            Some(p.1@)
        } else {
            find_doc(s, u)
        },
    decreases s.len(),
{
    if s.len() == 0 {
        assert(s.push(p).len() == 1);
        assert(s.push(p)[0] == p);
        assert(s.push(p).drop_first() =~= Seq::<(String, String)>::empty());
        if u != p.0@ {
            assert(find_doc(Seq::<(String, String)>::empty(), u) is None);
            assert(find_doc(s, u) is None);
        }
    } else {
        assert(s.push(p)[0] == s[0]);
        assert(s.push(p).drop_first() =~= s.drop_first().push(p));
        assert(forall|j: int| 0 <= j < s.len() - 1 ==> #[trigger] s.drop_first()[j] == s[j + 1]);
        lemma_find_doc_push(s.drop_first(), p, u);
    }
}

/// Removing the pair at index `i` unbinds its key and leaves every other
/// key's lookup unchanged.
proof fn lemma_find_doc_remove(s: Seq<(String, String)>, i: int, u: Seq<char>)
    requires
        0 <= i < s.len(),
        forall|j: int| 0 <= j < s.len() && j != i ==> (#[trigger] s[j]).0@ != s[i].0@,
    ensures
        find_doc(s.remove(i), u) == if u == s[i].0@ {
            None
        } else {
            find_doc(s, u)
        },
    decreases i,
{
    let s2 = s.remove(i);
    if i == 0 {
        assert(s2 =~= s.drop_first());
        if u == s[0].0@ {
            lemma_find_doc_none(s.drop_first(), u);
            assert(forall|j: int| 0 <= j < s.len() - 1 ==> #[trigger] s.drop_first()[j] == s[j + 1]);
        }
    } else {
        assert(s2[0] == s[0]);
        if u != s[0].0@ {
            assert(s2.drop_first() =~= s.drop_first().remove(i - 1));
            assert(forall|j: int| 0 <= j < s.len() - 1 ==> #[trigger] s.drop_first()[j] == s[j + 1]);
            lemma_find_doc_remove(s.drop_first(), i - 1, u);
        }
    }
}

impl DocumentSync {
    /// How many live contributions the word `w` has in the index.
    pub closed spec fn count(self, w: Seq<char>) -> nat {
        self.trie.count(w)
    }

    /// The last stored content of the document `uri`, if it is open.
    pub closed spec fn stored(self, uri: Seq<char>) -> Option<Seq<char>> {
        find_doc(self.documents@, uri)
    }

    /// The minimum accepted word length, fixed at construction.
    pub closed spec fn min_len(self) -> nat {
        self.min_word_len as nat
    }

    /// Structural invariant: document keys are distinct and the trie is well
    /// formed.
    pub closed spec fn wf(self) -> bool {
        &&& self.trie.wf()
        &&& (forall|i: int, j: int|
            0 <= i < j < self.documents@.len() ==> (#[trigger] self.documents@[i]).0@ != (
            #[trigger] self.documents@[j]).0@)
    }

    /// A fresh synchronizer: no document open, no word counted.
    pub fn new(min_word_len: usize) -> (r: DocumentSync)
        ensures
            r.wf(),
            r.min_len() == min_word_len as nat,
            forall|u: Seq<char>| r.stored(u) is None,
            forall|w: Seq<char>| r.count(w) == 0,
    {
        let r = DocumentSync { documents: Vec::new(), trie: Trie::new(), min_word_len };
        proof {
            assert forall|u: Seq<char>| r.stored(u) is None by {
                lemma_find_doc_none(r.documents@, u);
            }
        }
        r
    }

    /// The index of the document `uri`, if it is open.
    fn find_doc_index(&self, uri: &str) -> (r: Option<usize>)
        requires
            self.wf(),
        ensures
            match r {
                Some(i) => i < self.documents@.len() && self.documents@[i as int].0@ == uri@
                    && self.stored(uri@) == Some(self.documents@[i as int].1@),
                None => self.stored(uri@) is None,
            },
    {
        let uri_string = uri.to_owned();
        let n = self.documents.len();
        let mut k: usize = 0;
        while k < n
            invariant
                uri_string@ == uri@,
                k <= n,
                n == self.documents@.len(),
                forall|j: int| 0 <= j < k ==> (#[trigger] self.documents@[j]).0@ != uri@,
            decreases n - k,
        {
            if self.documents[k].0 == uri_string {
                proof {
                    lemma_find_doc_at(self.documents@, uri@, k as int);
                }
                return Some(k);
            }
            k = k + 1;
        }
        proof {
            lemma_find_doc_none(self.documents@, uri@);
        }
        None
    }

    /// Count every token of `content` once more.
    fn add_words(&mut self, content: &str)
        requires
            old(self).wf(),
        ensures
            final(self).wf(),
            final(self).documents == old(self).documents,
            final(self).min_word_len == old(self).min_word_len,
            forall|v: Seq<char>|
                final(self).count(v) == inc_by(
                    old(self).count(v),
                    count_matches(spec_tokens(content@, old(self).min_len()), v),
                ),
    {
        let words = process_token(content, self.min_word_len);
        let ghost toks = spec_tokens(content@, self.min_word_len as nat);
        assert(words.deep_view() == toks);
        let n = words.len();
        let mut i: usize = 0;
        assert(toks.take(0) =~= Seq::<Seq<char>>::empty());
        while i < n
            invariant
                old(self).wf(),
                self.wf(),
                i <= n,
                n == words@.len(),
                words.deep_view() == toks,
                self.documents == old(self).documents,
                self.min_word_len == old(self).min_word_len,
                forall|v: Seq<char>|
                    self.count(v) == inc_by(
                        old(self).count(v),
                        count_matches(toks.take(i as int), v),
                    ),
            decreases n - i,
        {
            let ghost w = toks[i as int];
            assert(words@[i as int]@ == w);
            let ghost before = *self;
            self.trie.insert(words[i].as_str());
            proof {
                assert(toks.take(i + 1) =~= toks.take(i as int).push(w));
                assert forall|v: Seq<char>|
                    self.count(v) == inc_by(
                        old(self).count(v),
                        count_matches(toks.take(i + 1), v),
                    ) by {
                    lemma_count_matches_push(toks.take(i as int), w, v);
                    if v == w {
                        assert(self.count(v) == inc_count(before.count(v)));
                    } else {
                        assert(self.count(v) == before.count(v));
                    }
                }
            }
            i = i + 1;
        }
        assert(toks.take(n as int) =~= toks);
    }

    /// Retract every token of `content` once.
    fn remove_words(&mut self, content: &str)
        requires
            old(self).wf(),
        ensures
            final(self).wf(),
            final(self).documents == old(self).documents,
            final(self).min_word_len == old(self).min_word_len,
            forall|v: Seq<char>|
                final(self).count(v) == dec_by(
                    old(self).count(v),
                    count_matches(spec_tokens(content@, old(self).min_len()), v),
                ),
    {
        let words = process_token(content, self.min_word_len);
        let ghost toks = spec_tokens(content@, self.min_word_len as nat);
        assert(words.deep_view() == toks);
        let n = words.len();
        let mut i: usize = 0;
        assert(toks.take(0) =~= Seq::<Seq<char>>::empty());
        while i < n
            invariant
                old(self).wf(),
                self.wf(),
                i <= n,
                n == words@.len(),
                words.deep_view() == toks,
                self.documents == old(self).documents,
                self.min_word_len == old(self).min_word_len,
                forall|v: Seq<char>|
                    self.count(v) == dec_by(
                        old(self).count(v),
                        count_matches(toks.take(i as int), v),
                    ),
            decreases n - i,
        {
            let ghost w = toks[i as int];
            assert(words@[i as int]@ == w);
            let ghost before = *self;
            self.trie.remove(words[i].as_str());
            proof {
                assert(toks.take(i + 1) =~= toks.take(i as int).push(w));
                assert forall|v: Seq<char>|
                    self.count(v) == dec_by(
                        old(self).count(v),
                        count_matches(toks.take(i + 1), v),
                    ) by {
                    lemma_count_matches_push(toks.take(i as int), w, v);
                    if v == w {
                        assert(self.count(v) == dec_count(before.count(v)));
                    } else {
                        assert(self.count(v) == before.count(v));
                    }
                }
            }
            i = i + 1;
        }
        assert(toks.take(n as int) =~= toks);
    }

    /// Open a document: store its text and count its tokens.  Reopening an
    /// already open document overwrites the stored text and counts the new
    /// text's tokens on top of what the old text contributed.
    pub fn did_open(&mut self, uri: &str, text: &str)
        requires
            old(self).wf(),
        ensures
            final(self).wf(),
            final(self).min_len() == old(self).min_len(),
            final(self).stored(uri@) == Some(text@),
            forall|u: Seq<char>| u != uri@ ==> final(self).stored(u) == old(self).stored(u),
            forall|v: Seq<char>|
                final(self).count(v) == inc_by(
                    old(self).count(v),
                    count_matches(spec_tokens(text@, old(self).min_len()), v),
                ),
    {
        let stored_text = text.to_owned();
        match self.find_doc_index(uri) {
            Some(i) => {
                let ghost s0 = self.documents@;
                let pair = self.documents.remove(i);
                self.documents.insert(i, (pair.0, stored_text));
                assert(self.documents@ =~= s0.update(i as int, (s0[i as int].0, stored_text)));
                proof {
                    lemma_find_doc_at(s0, uri@, i as int);
                    assert forall|u: Seq<char>| true implies find_doc(self.documents@, u) == if u
                        == uri@ {
                        Some(text@)
                    } else {
                        find_doc(s0, u)
                    } by {
                        lemma_find_doc_update(s0, i as int, stored_text, u);
                    }
                }
            }
            None => {
                let ghost s0 = self.documents@;
                proof {
                    lemma_find_doc_none(s0, uri@);
                }
                let pair = (uri.to_owned(), stored_text);
                let ghost p = pair;
                self.documents.push(pair);
                proof {
                    assert forall|u: Seq<char>| true implies find_doc(self.documents@, u) == if u
                        == uri@ {
                        Some(text@)
                    } else {
                        find_doc(s0, u)
                    } by {
                        lemma_find_doc_push(s0, p, u);
                    }
                    assert(self.wf()) by {
                        assert(forall|j: int|
                            0 <= j < s0.len() ==> #[trigger] self.documents@[j] == s0[j]);
                    }
                }
            }
        }
        self.add_words(text);
    }

    /// Close a document: retract the tokens of its stored text and forget
    /// it.  Closing a document that is not open changes nothing.
    pub fn did_close(&mut self, uri: &str)
        requires
            old(self).wf(),
        ensures
            final(self).wf(),
            final(self).min_len() == old(self).min_len(),
            final(self).stored(uri@) is None,
            forall|u: Seq<char>| u != uri@ ==> final(self).stored(u) == old(self).stored(u),
            forall|v: Seq<char>|
                final(self).count(v) == (match old(self).stored(uri@) {
                    Some(content) => dec_by(
                        old(self).count(v),
                        count_matches(spec_tokens(content, old(self).min_len()), v),
                    ),
                    None => old(self).count(v),
                }),
    {
        match self.find_doc_index(uri) {
            Some(i) => {
                let ghost stored_content = old(self).stored(uri@).unwrap();
                let content = self.documents[i].1.clone();
                assert(content@ == stored_content);
                self.remove_words(content.as_str());
                assert(forall|v: Seq<char>|
                    self.count(v) == dec_by(
                        old(self).count(v),
                        count_matches(spec_tokens(stored_content, old(self).min_len()), v),
                    ));
                let ghost s0 = self.documents@;
                let ghost prev = *self;
                let _ = self.documents.remove(i);
                assert forall|v: Seq<char>| self.count(v) == dec_by(
                    old(self).count(v),
                    count_matches(spec_tokens(stored_content, old(self).min_len()), v),
                ) by {
                    assert(self.trie == prev.trie);
                    assert(self.count(v) == prev.count(v));
                }
                proof {
                    assert forall|u: Seq<char>| true implies find_doc(self.documents@, u) == if u
                        == uri@ {
                        None
                    } else {
                        find_doc(s0, u)
                    } by {
                        lemma_find_doc_remove(s0, i as int, u);
                    }
                    assert(self.wf()) by {
                        assert(forall|k: int|
                            0 <= k < self.documents@.len() ==> #[trigger] self.documents@[k] == (
                            if k < i as int {
                                s0[k]
                            } else {
                                s0[k + 1]
                            }));
                    }
                }
            }
            None => {},
        }
    }

    /// Change a document: retract the tokens of the previously stored text,
    /// store the last fragment as the new text, and count the tokens of
    /// every delivered fragment.  Changing a document that is not open
    /// changes nothing.
    pub fn did_change(&mut self, uri: &str, changes: &Vec<String>)
        requires
            old(self).wf(),
        ensures
            final(self).wf(),
            final(self).min_len() == old(self).min_len(),
            old(self).stored(uri@) is None ==> *final(self) == *old(self),
            forall|u: Seq<char>| u != uri@ ==> final(self).stored(u) == old(self).stored(u),
            old(self).stored(uri@) is Some ==> final(self).stored(uri@) == (if changes@.len() > 0 {
                Some(changes.deep_view().last())
            } else {
                old(self).stored(uri@)
            }),
            old(self).stored(uri@) is Some ==> (forall|v: Seq<char>|
                final(self).count(v) == inc_by(
                    dec_by(
                        old(self).count(v),
                        count_matches(
                            spec_tokens(old(self).stored(uri@).unwrap(), old(self).min_len()),
                            v,
                        ),
                    ),
                    count_matches(tokens_of_all(changes.deep_view(), old(self).min_len()), v),
                )),
    {
        match self.find_doc_index(uri) {
            Some(i) => {
                let ghost stored_content = old(self).stored(uri@).unwrap();
                let content = self.documents[i].1.clone();
                assert(content@ == stored_content);
                self.remove_words(content.as_str());
                assert(forall|v: Seq<char>|
                    self.count(v) == dec_by(
                        old(self).count(v),
                        count_matches(spec_tokens(stored_content, old(self).min_len()), v),
                    ));
                let ghost post_rm = *self;
                if changes.len() > 0 {
                    let ghost s0 = self.documents@;
                    let pair = self.documents.remove(i);
                    let last = changes[changes.len() - 1].clone();
                    assert(last@ == changes.deep_view().last());
                    self.documents.insert(i, (pair.0, last));
                    assert(self.documents@ =~= s0.update(i as int, (s0[i as int].0, last)));
                    proof {
                        lemma_find_doc_at(s0, uri@, i as int);
                        assert forall|u: Seq<char>| true implies find_doc(self.documents@, u) == if u
                            == uri@ {
                            Some(last@)
                        } else {
                            find_doc(s0, u)
                        } by {
                            lemma_find_doc_update(s0, i as int, last, u);
                        }
                    }
                }
                let ghost mid = *self;
                let ghost frags = changes.deep_view();
                let ghost ml = self.min_word_len as nat;
                let n = changes.len();
                let mut k: usize = 0;
                assert(frags.take(0) =~= Seq::<Seq<char>>::empty());
                proof {
                    assert forall|v: Seq<char>|
                        count_matches(tokens_of_all(frags.take(0), ml), v) == 0 by {}
                }
                while k < n
                    invariant
                        mid.wf(),
                        self.wf(),
                        k <= n,
                        n == changes@.len(),
                        frags == changes.deep_view(),
                        ml == mid.min_word_len as nat,
                        self.documents == mid.documents,
                        self.min_word_len == mid.min_word_len,
                        forall|v: Seq<char>|
                            self.count(v) == inc_by(
                                mid.count(v),
                                count_matches(tokens_of_all(frags.take(k as int), ml), v),
                            ),
                    decreases n - k,
                {
                    let ghost before = *self;
                    let frag = &changes[k];
                    self.add_words(frag.as_str());
                    proof {
                        assert(frag@ == frags[k as int]);
                        assert(frags.take(k + 1) =~= frags.take(k as int).push(frags[k as int]));
                        lemma_tokens_of_all_push(frags.take(k as int), frags[k as int], ml);
                        assert forall|v: Seq<char>|
                            self.count(v) == inc_by(
                                mid.count(v),
                                count_matches(tokens_of_all(frags.take(k + 1), ml), v),
                            ) by {
                            lemma_count_matches_add(
                                tokens_of_all(frags.take(k as int), ml),
                                spec_tokens(frags[k as int], ml),
                                v,
                            );
                        }
                    }
                    k = k + 1;
                }
                assert(frags.take(n as int) =~= frags);
                assert forall|v: Seq<char>|
                    mid.count(v) == dec_by(
                        old(self).count(v),
                        count_matches(spec_tokens(stored_content, old(self).min_len()), v),
                    ) by {
                    assert(mid.trie == post_rm.trie);
                    assert(mid.count(v) == post_rm.count(v));
                }
            }
            None => {},
        }
    }

    /// The line with index `line` of the stored text of `uri`, if the
    /// document is open and has that many lines.
    pub fn get_current_line(&self, uri: &str, line: usize) -> (r: Option<String>)
        requires
            self.wf(),
        ensures
            match self.stored(uri@) {
                None => r is None,
                Some(content) => (match r {
                    Some(l) => line < split_lines(content).len() && l@ == split_lines(content)[line as int],
                    None => line >= split_lines(content).len(),
                }),
            },
    {
        match self.find_doc_index(uri) {
            Some(i) => line_at(self.documents[i].1.as_str(), line),
            None => None,
        }
    }

    /// Complete at a cursor: every indexed word that starts with the token
    /// run just left of the column, except those equal to a prefix of the
    /// token already visible under the cursor.  Each candidate appears once;
    /// the order is unspecified.
    pub fn complete(&self, current_line: &str, character: i32) -> (r: Vec<String>)
        requires
            self.wf(),
        ensures
            forall|k: int| #![trigger r@[k]]
                0 <= k < r@.len() ==> {
                    let w = r@[k]@;
                    spec_word_prefix(current_line@, character as int).is_prefix_of(w)
                        && self.count(w) > 0 && !contains_chars(
                        spec_visible_words(current_line@, character as int),
                        w,
                    )
                },
            forall|w: Seq<char>|
                spec_word_prefix(current_line@, character as int).is_prefix_of(w)
                    && #[trigger] self.count(w) > 0 && !contains_chars(
                    spec_visible_words(current_line@, character as int),
                    w,
                ) ==> contains_word(r@, w),
            forall|k1: int, k2: int| #![trigger r@[k1], r@[k2]]
                0 <= k1 < k2 < r@.len() ==> r@[k1]@ != r@[k2]@,
    {
        let prefix = get_word_prefix(current_line, character);
        let words = self.trie.suggest_completions(prefix.as_str());
        let suffixes = get_possible_current_word(current_line, character);
        let r = filter_visible_words(words, &suffixes);
        proof {
            let p = spec_word_prefix(current_line@, character as int);
            let vis = spec_visible_words(current_line@, character as int);
            let pred = not_visible_pred(vis);
            let wdv = words.deep_view();
            assert(suffixes.deep_view() == vis);
            assert(r.deep_view() == wdv.filter(pred));
            lemma_filter_contains_chars(wdv, pred);
            assert(distinct_words(wdv)) by {
                assert forall|k1: int, k2: int| 0 <= k1 < k2 < wdv.len() implies #[trigger] wdv[k1]
                    != #[trigger] wdv[k2] by {
                    assert(wdv[k1] == words@[k1]@ && wdv[k2] == words@[k2]@);
                }
            }
            lemma_filter_distinct(wdv, pred);
            assert forall|k: int| 0 <= k < r@.len() implies {
                let w = (#[trigger] r@[k])@;
                p.is_prefix_of(w) && self.count(w) > 0 && !contains_chars(vis, w)
            } by {
                let w = r@[k]@;
                assert(r.deep_view()[k] == w);
                assert(contains_chars(wdv.filter(pred), w));
                assert(contains_chars(wdv, w) && pred(w));
                let m = choose|m: int| 0 <= m < wdv.len() && wdv[m] == w;
                assert(words@[m]@ == w);
            }
            assert forall|w: Seq<char>|
                p.is_prefix_of(w) && #[trigger] self.count(w) > 0 && !contains_chars(
                    vis,
                    w,
                ) implies contains_word(r@, w) by {
                assert(contains_word(words@, w));
                let m = choose|m: int| 0 <= m < words@.len() && words@[m]@ == w;
                assert(wdv[m] == w);
                assert(contains_chars(wdv, w));
                assert(pred(w));
                assert(contains_chars(wdv.filter(pred), w));
                let k = choose|k: int| 0 <= k < r.deep_view().len() && r.deep_view()[k] == w;
                assert(r@[k]@ == w);
            }
            assert forall|k1: int, k2: int| 0 <= k1 < k2 < r@.len() implies (#[trigger] r@[k1])@
                != (#[trigger] r@[k2])@ by {
                assert(r.deep_view()[k1] == r@[k1]@ && r.deep_view()[k2] == r@[k2]@);
            }
        }
        r
    }
}

} // verus!
