//! A character-keyed prefix trie with one occurrence count per word.
//!
//! Every word is a path of child edges from the root; the node at the end of
//! the path stores how many live contributions that exact word has.  Nodes
//! are created lazily on insert and pruned eagerly on remove: a node other
//! than the root is retained only while it has a child or a positive count.

use vstd::prelude::*;

verus! {

broadcast use vstd::string::group_string_axioms;

use crate::text::chars_to_string;
use crate::text::str_chars;

/// One trie node: children keyed by a single character (keys are distinct),
/// plus the number of live contributions for the word that ends here.
pub struct TrieNode {
    children: Vec<(char, TrieNode)>,
    word_count: u64,
}

/// A prefix trie; the root node stands for the empty word.
pub struct Trie {
    root: TrieNode,
}

/// An occurrence count after one more insertion; saturates at `u64::MAX`.
pub open spec fn inc_count(n: nat) -> nat {
    if n < u64::MAX { n + 1 } else { n }
}

/// An occurrence count after one removal, with a floor of zero.
pub open spec fn dec_count(n: nat) -> nat {
    if n > 0 { (n - 1) as nat } else { 0 }
}

/// The child held by the first pair whose key is `c`, if any.
spec fn find_child(s: Seq<(char, TrieNode)>, c: char) -> Option<TrieNode>
    decreases s.len(),
{
    if s.len() == 0 {
        None
    } else if s[0].0 == c {
        Some(s[0].1)
    } else {
        find_child(s.drop_first(), c)
    }
}

impl TrieNode {
    /// How many times the word `w` is counted below this node.
    pub closed spec fn count_of(self, w: Seq<char>) -> nat
        decreases w.len(),
    {
        if w.len() == 0 {
            self.word_count as nat
        } else {
            match find_child(self.children@, w[0]) {
                Some(child) => child.count_of(w.drop_first()),
                None => 0,
            }
        }
    }

    /// A node worth keeping: it has a child or a positive count.
    pub closed spec fn live(self) -> bool {
        self.children@.len() > 0 || self.word_count > 0
    }

    /// Well-formed subtree: child keys are distinct, and every child is both
    /// well formed and live (the pruning invariant: no dead subtree is kept).
    pub closed spec fn wf(self) -> bool
        decreases self,
    {
        &&& (forall|i: int, j: int|
            0 <= i < j < self.children@.len() ==> (#[trigger] self.children@[i]).0 != (
            #[trigger] self.children@[j]).0)
        &&& (forall|i: int|
            0 <= i < self.children@.len() ==> (#[trigger] self.children@[i]).1.wf()
                && self.children@[i].1.live())
    }
}

/// `find_child` returns `None` exactly when no pair carries the key.
proof fn lemma_find_child_none(s: Seq<(char, TrieNode)>, c: char)
    ensures
        find_child(s, c) is None <==> (forall|j: int| 0 <= j < s.len() ==> (#[trigger] s[j]).0 != c),
    decreases s.len(),
{
    if s.len() > 0 {
        lemma_find_child_none(s.drop_first(), c);
        if find_child(s, c) is None {
            assert forall|j: int| 0 <= j < s.len() implies (#[trigger] s[j]).0 != c by {
                if j >= 1 {
                    assert(s.drop_first()[j - 1] == s[j]);
                }
            }
        } else {
            if s[0].0 != c {
                let j = choose|j: int|
                    0 <= j < s.drop_first().len() && (#[trigger] s.drop_first()[j]).0 == c;
                assert(s[j + 1] == s.drop_first()[j]);
            }
        }
    }
}

/// When the key first occurs at index `i`, `find_child` returns that child.
proof fn lemma_find_child_at(s: Seq<(char, TrieNode)>, c: char, i: int)
    requires
        0 <= i < s.len(),
        s[i].0 == c,
        forall|j: int| 0 <= j < i ==> (#[trigger] s[j]).0 != c,
    ensures
        find_child(s, c) == Some(s[i].1),
    decreases i,
{
    if i > 0 {
        assert(forall|j: int|
            0 <= j < i - 1 ==> #[trigger] s.drop_first()[j] == s[j + 1]);
        lemma_find_child_at(s.drop_first(), c, i - 1);
    }
}

/// Replacing the child at index `i` (keeping its key) rebinds that key and
/// leaves every other key's lookup unchanged, provided the key does not
/// occur earlier in the sequence.
proof fn lemma_find_child_update(s: Seq<(char, TrieNode)>, i: int, n: TrieNode, d: char)
    requires
        0 <= i < s.len(),
        forall|j: int| 0 <= j < i ==> (#[trigger] s[j]).0 != s[i].0,
    ensures
        find_child(s.update(i, (s[i].0, n)), d) == if d == s[i].0 {
            Some(n)
        } else {
            find_child(s, d)
        },
    decreases i,
{
    let s2 = s.update(i, (s[i].0, n));
    if i == 0 {
        if d != s[0].0 {
            assert(s2.drop_first() =~= s.drop_first());
        }
    } else {
        assert(s2[0] == s[0]);
        if d == s[0].0 {
        } else {
            assert(s2.drop_first() =~= s.drop_first().update(i - 1, (s[i].0, n)));
            assert(forall|j: int|
                0 <= j < i - 1 ==> #[trigger] s.drop_first()[j] == s[j + 1]);
            assert(s.drop_first()[i - 1] == s[i]);
            lemma_find_child_update(s.drop_first(), i - 1, n, d);
        }
    }
}

/// Appending a pair with a fresh key binds that key and leaves every other
/// key's lookup unchanged.
proof fn lemma_find_child_push(s: Seq<(char, TrieNode)>, c: char, n: TrieNode, d: char)
    requires
        forall|j: int| 0 <= j < s.len() ==> (#[trigger] s[j]).0 != c,
    ensures
        find_child(s.push((c, n)), d) == if d == c {
            Some(n)
        } else {
            find_child(s, d)
        },
    decreases s.len(),
{
    if s.len() == 0 {
        assert(s.push((c, n))[0] == (c, n));
        if d != c {
            assert(find_child(s, d) is None);
        }
    } else {
        assert(s.push((c, n))[0] == s[0]);
        assert(s.push((c, n)).drop_first() =~= s.drop_first().push((c, n)));
        assert(forall|j: int|
            0 <= j < s.len() - 1 ==> #[trigger] s.drop_first()[j] == s[j + 1]);
        lemma_find_child_push(s.drop_first(), c, n, d);
    }
}

/// Removing the pair at index `i` unbinds its key and leaves every other
/// key's lookup unchanged, provided the key does not occur earlier.
proof fn lemma_find_child_remove(s: Seq<(char, TrieNode)>, i: int, d: char)
    requires
        0 <= i < s.len(),
        forall|j: int| 0 <= j < s.len() && j != i ==> (#[trigger] s[j]).0 != s[i].0,
    ensures
        find_child(s.remove(i), d) == if d == s[i].0 {
            None
        } else {
            find_child(s, d)
        },
    decreases i,
{
    let s2 = s.remove(i);
    if i == 0 {
        assert(s2 =~= s.drop_first());
        if d == s[0].0 {
            lemma_find_child_none(s.drop_first(), d);
            assert(forall|j: int|
                0 <= j < s.len() - 1 ==> #[trigger] s.drop_first()[j] == s[j + 1]);
        }
    } else {
        assert(s2[0] == s[0]);
        if d != s[0].0 {
            assert(s2.drop_first() =~= s.drop_first().remove(i - 1));
            assert(forall|j: int|
                0 <= j < s.len() - 1 ==> #[trigger] s.drop_first()[j] == s[j + 1]);
            lemma_find_child_remove(s.drop_first(), i - 1, d);
        }
    }
}

impl TrieNode {
    /// The index of this node's child for `c`, if there is one.
    fn child_index(&self, c: char) -> (r: Option<usize>)
        ensures
            match r {
                Some(i) => i < self.children@.len() && self.children@[i as int].0 == c
                    && find_child(self.children@, c) == Some(self.children@[i as int].1),
                None => find_child(self.children@, c) is None,
            },
    {
        let n = self.children.len();
        let mut k: usize = 0;
        while k < n
            invariant
                k <= n,
                n == self.children@.len(),
                forall|j: int| 0 <= j < k ==> (#[trigger] self.children@[j]).0 != c,
            decreases n - k,
        {
            if self.children[k].0 == c {
                proof {
                    lemma_find_child_at(self.children@, c, k as int);
                }
                return Some(k);
            }
            k = k + 1;
        }
        proof {
            lemma_find_child_none(self.children@, c);
        }
        None
    }

    /// Walk (and create as needed) the path for `w[i..]` and increment the
    /// count at its end.
    fn insert_at(&mut self, w: &Vec<char>, i: usize)
        requires
            old(self).wf(),
            i <= w@.len(),
        ensures
            final(self).wf(),
            final(self).live(),
            final(self).count_of(w@.skip(i as int)) == inc_count(
                old(self).count_of(w@.skip(i as int)),
            ),
            forall|v: Seq<char>|
                v != w@.skip(i as int) ==> final(self).count_of(v) == old(self).count_of(v),
        decreases w@.len() - i,
    {
        if i == w.len() {
            let ghost sfx = w@.skip(i as int);
            assert(sfx.len() == 0);
            if self.word_count < u64::MAX {
                self.word_count = self.word_count + 1;
            }
            assert forall|v: Seq<char>| v != sfx implies self.count_of(v) == old(
                self,
            ).count_of(v) by {
                if v.len() == 0 {
                    assert(v =~= sfx);
                }
            }
        } else {
            let c = w[i];
            let ghost sfx = w@.skip(i as int);
            assert(sfx[0] == c && sfx.drop_first() =~= w@.skip(i as int + 1));
            match self.child_index(c) {
                Some(idx) => {
                    let ghost s0 = self.children@;
                    let pair = self.children.remove(idx);
                    let key = pair.0;
                    let mut child = pair.1;
                    let ghost child0 = child;
                    child.insert_at(w, i + 1);
                    let n = self.children.len();
                    self.children.insert(idx, (key, child));
                    assert(self.children@ =~= s0.update(idx as int, (key, child)));
                    proof {
                        lemma_update_effects(s0, idx as int, child0, child, *old(self), *self, sfx);
                    }
                }
                None => {
                    let ghost s0 = self.children@;
                    let mut child = TrieNode { children: Vec::new(), word_count: 0 };
                    let ghost child0 = child;
                    child.insert_at(w, i + 1);
                    self.children.push((c, child));
                    proof {
                        lemma_find_child_none(s0, c);
                        lemma_push_effects(s0, c, child0, child, *old(self), *self, sfx);
                    }
                }
            }
        }
    }
}

/// After rebinding the key at `idx` to the updated child, the node's counts
/// change exactly on words that start with that key, following the child.
proof fn lemma_update_effects(
    s0: Seq<(char, TrieNode)>,
    idx: int,
    child0: TrieNode,
    child1: TrieNode,
    node0: TrieNode,
    node1: TrieNode,
    sfx: Seq<char>,
)
    requires
        node0.wf(),
        0 <= idx < s0.len(),
        node0.children@ == s0,
        node1.children@ == s0.update(idx, (s0[idx].0, child1)),
        node1.word_count == node0.word_count,
        sfx.len() > 0,
        sfx[0] == s0[idx].0,
        child0 == s0[idx].1,
        child1.wf(),
        child1.live(),
        forall|v: Seq<char>|
            v != sfx.drop_first() ==> child1.count_of(v) == child0.count_of(v),
    ensures
        node1.wf(),
        node1.live(),
        node1.count_of(sfx) == child1.count_of(sfx.drop_first()),
        node0.count_of(sfx) == child0.count_of(sfx.drop_first()),
        forall|v: Seq<char>| v != sfx ==> node1.count_of(v) == node0.count_of(v),
{
    let c = s0[idx].0;
    assert forall|d: char| true implies find_child(node1.children@, d) == if d == c {
        Some(child1)
    } else {
        find_child(s0, d)
    } by {
        lemma_find_child_update(s0, idx, child1, d);
    }
    lemma_find_child_at(s0, c, idx);
    // well-formedness: keys unchanged, children unchanged but at idx
    assert(node1.wf()) by {
        assert(forall|k: int|
            0 <= k < node1.children@.len() && k != idx ==> node1.children@[k] == s0[k]);
        assert(node1.children@[idx] == (c, child1));
    }
    assert(node1.count_of(sfx) == child1.count_of(sfx.drop_first()));
    assert(node0.count_of(sfx) == child0.count_of(sfx.drop_first()));
    assert forall|v: Seq<char>| v != sfx implies node1.count_of(v) == node0.count_of(v) by {
        if v.len() > 0 && v[0] == c {
            assert(find_child(node1.children@, v[0]) == Some(child1));
            assert(find_child(node0.children@, v[0]) == Some(child0));
            if v.drop_first() == sfx.drop_first() {
                lemma_eq_by_head_tail(v, sfx);
            } else {
                assert(child1.count_of(v.drop_first()) == child0.count_of(v.drop_first()));
            }
        }
    }
}

/// Two non-empty sequences with the same head and the same tail are equal.
proof fn lemma_eq_by_head_tail(a: Seq<char>, b: Seq<char>)
    requires
        a.len() > 0,
        b.len() > 0,
        a[0] == b[0],
        a.drop_first() == b.drop_first(),
    ensures
        a == b,
{
    assert(a.drop_first().len() == a.len() - 1);
    assert(b.drop_first().len() == b.len() - 1);
    assert(a.len() == b.len());
    assert forall|k: int| 0 <= k < a.len() implies a[k] == b[k] by {
        if k >= 1 {
            assert(a[k] == a.subrange(1, a.len() as int)[k - 1]);
            assert(b[k] == b.subrange(1, b.len() as int)[k - 1]);
        }
    }
    assert(a =~= b);
}

/// After pushing a fresh key bound to the new child, the node's counts
/// change exactly on words that start with that key, following the child.
proof fn lemma_push_effects(
    s0: Seq<(char, TrieNode)>,
    c: char,
    child0: TrieNode,
    child1: TrieNode,
    node0: TrieNode,
    node1: TrieNode,
    sfx: Seq<char>,
)
    requires
        node0.wf(),
        node0.children@ == s0,
        find_child(s0, c) is None,
        node1.children@ == s0.push((c, child1)),
        node1.word_count == node0.word_count,
        sfx.len() > 0,
        sfx[0] == c,
        child0.children@.len() == 0,
        child0.word_count == 0,
        child1.wf(),
        child1.live(),
        forall|v: Seq<char>|
            v != sfx.drop_first() ==> child1.count_of(v) == child0.count_of(v),
    ensures
        node1.wf(),
        node1.live(),
        node1.count_of(sfx) == child1.count_of(sfx.drop_first()),
        node0.count_of(sfx) == 0,
        forall|v: Seq<char>| v != sfx ==> node1.count_of(v) == node0.count_of(v),
{
    lemma_find_child_none(s0, c);
    assert forall|d: char| true implies find_child(node1.children@, d) == if d == c {
        Some(child1)
    } else {
        find_child(s0, d)
    } by {
        lemma_find_child_push(s0, c, child1, d);
    }
    assert(node1.wf()) by {
        assert(forall|k: int|
            0 <= k < s0.len() ==> node1.children@[k] == s0[k]);
        assert(node1.children@[s0.len() as int] == (c, child1));
    }
    // a fresh child counts nothing: its own count is zero and it has no children
    assert forall|v: Seq<char>| true implies child0.count_of(v) == 0 by {
        if v.len() > 0 {
            lemma_find_child_none(child0.children@, v[0]);
        }
    }
    assert(node1.count_of(sfx) == child1.count_of(sfx.drop_first()));
    assert(node0.count_of(sfx) == 0);
    assert forall|v: Seq<char>| v != sfx implies node1.count_of(v) == node0.count_of(v) by {
        if v.len() > 0 && v[0] == c {
            assert(find_child(node1.children@, v[0]) == Some(child1));
            assert(node0.count_of(v) == 0);
            if v.drop_first() == sfx.drop_first() {
                lemma_eq_by_head_tail(v, sfx);
            } else {
                assert(child1.count_of(v.drop_first()) == child0.count_of(v.drop_first()));
                assert(child0.count_of(v.drop_first()) == 0);
            }
        }
    }
}

/// A node with no children and a zero count holds no word at all.
proof fn lemma_dead_counts_zero(n: TrieNode)
    requires
        n.children@.len() == 0,
        n.word_count == 0,
    ensures
        forall|v: Seq<char>| n.count_of(v) == 0,
{
    assert forall|v: Seq<char>| true implies n.count_of(v) == 0 by {
        if v.len() > 0 {
            lemma_find_child_none(n.children@, v[0]);
        }
    }
}

/// After dropping the child at `idx`, which has just become dead, the node's
/// counts change exactly on words that start with that child's key.
proof fn lemma_remove_child_effects(
    s0: Seq<(char, TrieNode)>,
    idx: int,
    child0: TrieNode,
    child1: TrieNode,
    node0: TrieNode,
    node1: TrieNode,
    sfx: Seq<char>,
)
    requires
        node0.wf(),
        0 <= idx < s0.len(),
        node0.children@ == s0,
        node1.children@ == s0.remove(idx),
        node1.word_count == node0.word_count,
        sfx.len() > 0,
        sfx[0] == s0[idx].0,
        child0 == s0[idx].1,
        child1.children@.len() == 0,
        child1.word_count == 0,
        forall|v: Seq<char>|
            v != sfx.drop_first() ==> child1.count_of(v) == child0.count_of(v),
    ensures
        node1.wf(),
        node1.count_of(sfx) == 0,
        node0.count_of(sfx) == child0.count_of(sfx.drop_first()),
        forall|v: Seq<char>| v != sfx ==> node1.count_of(v) == node0.count_of(v),
{
    let c = s0[idx].0;
    lemma_dead_counts_zero(child1);
    assert forall|j: int| 0 <= j < s0.len() && j != idx implies (#[trigger] s0[j]).0 != c by {
        if j < idx {
            assert(s0[j].0 != s0[idx].0);
        } else {
            assert(s0[idx].0 != s0[j].0);
        }
    }
    assert forall|d: char| true implies find_child(node1.children@, d) == if d == c {
        None
    } else {
        find_child(s0, d)
    } by {
        lemma_find_child_remove(s0, idx, d);
    }
    lemma_find_child_at(s0, c, idx);
    assert(node1.wf()) by {
        assert(forall|k: int|
            0 <= k < node1.children@.len() ==> node1.children@[k] == if k < idx {
                s0[k]
            } else {
                s0[k + 1]
            });
    }
    assert(node1.count_of(sfx) == 0);
    assert(node0.count_of(sfx) == child0.count_of(sfx.drop_first()));
    assert forall|v: Seq<char>| v != sfx implies node1.count_of(v) == node0.count_of(v) by {
        if v.len() > 0 && v[0] == c {
            assert(node1.count_of(v) == 0);
            assert(node0.count_of(v) == child0.count_of(v.drop_first()));
            if v.drop_first() == sfx.drop_first() {
                lemma_eq_by_head_tail(v, sfx);
            } else {
                assert(child0.count_of(v.drop_first()) == child1.count_of(v.drop_first()));
            }
        }
    }
}

impl TrieNode {
    /// Walk the path for `w[i..]`, decrement the count at its end (floor
    /// zero), and prune: report whether this node itself has become dead so
    /// the caller can drop it.
    fn remove_at(&mut self, w: &Vec<char>, i: usize) -> (del: bool)
        requires
            old(self).wf(),
            i <= w@.len(),
        ensures
            final(self).wf(),
            final(self).count_of(w@.skip(i as int)) == dec_count(
                old(self).count_of(w@.skip(i as int)),
            ),
            forall|v: Seq<char>|
                v != w@.skip(i as int) ==> final(self).count_of(v) == old(self).count_of(v),
            del ==> final(self).children@.len() == 0 && final(self).word_count == 0,
            !del && old(self).live() ==> final(self).live(),
        decreases w@.len() - i,
    {
        if i == w.len() {
            let ghost sfx = w@.skip(i as int);
            assert(sfx.len() == 0);
            if self.word_count > 0 {
                self.word_count = self.word_count - 1;
            }
            assert forall|v: Seq<char>| v != sfx implies self.count_of(v) == old(
                self,
            ).count_of(v) by {
                if v.len() == 0 {
                    assert(v =~= sfx);
                }
            }
            return self.children.len() == 0 && self.word_count == 0;
        }
        let c = w[i];
        let ghost sfx = w@.skip(i as int);
        assert(sfx[0] == c && sfx.drop_first() =~= w@.skip(i as int + 1));
        match self.child_index(c) {
            Some(idx) => {
                let ghost s0 = self.children@;
                let pair = self.children.remove(idx);
                let key = pair.0;
                let mut child = pair.1;
                let ghost child0 = child;
                let del_child = child.remove_at(w, i + 1);
                if del_child {
                    proof {
                        lemma_remove_child_effects(
                            s0,
                            idx as int,
                            child0,
                            child,
                            *old(self),
                            *self,
                            sfx,
                        );
                    }
                    self.children.len() == 0 && self.word_count == 0
                } else {
                    self.children.insert(idx, (key, child));
                    assert(self.children@ =~= s0.update(idx as int, (key, child)));
                    proof {
                        lemma_update_effects(s0, idx as int, child0, child, *old(self), *self, sfx);
                    }
                    false
                }
            }
            None => {
                proof {
                    if sfx.len() > 0 {
                        assert(self.count_of(sfx) == 0);
                    }
                }
                false
            }
        }
    }
}

/// Whether the sequence `out` holds a string whose characters are `w`.
pub open spec fn contains_word(out: Seq<String>, w: Seq<char>) -> bool {
    exists|k: int| 0 <= k < out.len() && out[k]@ == w
}

/// The node reached from `n` by following the path `p`, if the whole path
/// exists.
spec fn descend(n: TrieNode, p: Seq<char>) -> Option<TrieNode>
    decreases p.len(),
{
    if p.len() == 0 {
        Some(n)
    } else {
        match find_child(n.children@, p[0]) {
            Some(child) => descend(child, p.drop_first()),
            None => None,
        }
    }
}

/// Following `a.push(c)` is following `a` and then taking the edge `c`.
proof fn lemma_descend_push(n: TrieNode, a: Seq<char>, c: char)
    ensures
        descend(n, a.push(c)) == match descend(n, a) {
            Some(m) => find_child(m.children@, c),
            None => None,
        },
    decreases a.len(),
{
    let ap = a.push(c);
    if a.len() == 0 {
        assert(ap.len() == 1);
        assert(ap[0] == c);
        assert(ap.drop_first() =~= Seq::<char>::empty());
        match find_child(n.children@, c) {
            Some(child) => {
                assert(descend(child, ap.drop_first()) == Some(child));
            }
            None => {}
        }
    } else {
        assert(ap[0] == a[0]);
        assert(ap.drop_first() =~= a.drop_first().push(c));
        match find_child(n.children@, a[0]) {
            Some(child) => {
                lemma_descend_push(child, a.drop_first(), c);
            }
            None => {}
        }
    }
}

/// Following `a + b` is following `a` and then `b`.
proof fn lemma_descend_append(n: TrieNode, a: Seq<char>, b: Seq<char>)
    ensures
        descend(n, a + b) == match descend(n, a) {
            Some(m) => descend(m, b),
            None => None,
        },
    decreases a.len(),
{
    let ab = a + b;
    if a.len() == 0 {
        assert(ab =~= b);
    } else {
        assert(ab[0] == a[0]);
        assert(ab.len() > 0);
        assert(ab.drop_first() =~= a.drop_first() + b);
        match find_child(n.children@, a[0]) {
            Some(child) => {
                lemma_descend_append(child, a.drop_first(), b);
            }
            None => {}
        }
    }
}

/// The count of `a + b` below `n` is the count of `b` below the node that
/// `a` leads to, or zero when the path `a` is absent.
proof fn lemma_count_split(n: TrieNode, a: Seq<char>, b: Seq<char>)
    ensures
        n.count_of(a + b) == match descend(n, a) {
            Some(m) => m.count_of(b),
            None => 0,
        },
    decreases a.len(),
{
    let ab = a + b;
    if a.len() == 0 {
        assert(ab =~= b);
    } else {
        assert(ab[0] == a[0]);
        assert(ab.len() > 0);
        assert(ab.drop_first() =~= a.drop_first() + b);
        match find_child(n.children@, a[0]) {
            Some(child) => {
                lemma_count_split(child, a.drop_first(), b);
            }
            None => {}
        }
    }
}

/// `find_child` only ever returns a child stored in the sequence.
proof fn lemma_find_child_some(s: Seq<(char, TrieNode)>, c: char, n: TrieNode)
    requires
        find_child(s, c) == Some(n),
    ensures
        exists|j: int| 0 <= j < s.len() && s[j] == (c, n),
    decreases s.len(),
{
    if s.len() > 0 {
        if s[0].0 == c {
            assert(s[0] == (c, n));
        } else {
            lemma_find_child_some(s.drop_first(), c, n);
            let j = choose|j: int|
                0 <= j < s.drop_first().len() && #[trigger] s.drop_first()[j] == (c, n);
            assert(s[j + 1] == (c, n));
        }
    }
}

/// The characters `w` are `base` followed by a word counted below `node`.
spec fn rendered_item(w: Seq<char>, base: Seq<char>, node: TrieNode) -> bool {
    exists|sfx: Seq<char>| w == base + sfx && node.count_of(sfx) > 0
}

/// Every string in `out` is `base` followed by a word counted below `node`.
spec fn words_sound(out: Seq<String>, base: Seq<char>, node: TrieNode) -> bool {
    forall|k: int| #![trigger out[k]]
        0 <= k < out.len() ==> rendered_item(out[k]@, base, node)
}

/// Every word counted below `node` appears in `out`, rendered after `base`.
spec fn words_complete(out: Seq<String>, base: Seq<char>, node: TrieNode) -> bool {
    forall|sfx: Seq<char>| #[trigger] node.count_of(sfx) > 0 ==> contains_word(out, base + sfx)
}

/// No two strings in `out` have the same characters.
spec fn words_distinct(out: Seq<String>) -> bool {
    forall|k1: int, k2: int| #![trigger out[k1], out[k2]]
        0 <= k1 < k2 < out.len() ==> out[k1]@ != out[k2]@
}

/// Mid-collection soundness: every string in `out` is either `base` itself
/// (only when this node counts it) or goes through one of the first `upto`
/// children.
spec fn gathered_item(w: Seq<char>, base: Seq<char>, node: TrieNode, upto: int) -> bool {
    exists|j: int, s: Seq<char>|
        0 <= j < upto && w == base + seq![node.children@[j].0] + s
            && node.children@[j].1.count_of(s) > 0
}

spec fn gathered_sound(out: Seq<String>, base: Seq<char>, node: TrieNode, upto: int) -> bool {
    forall|k: int| #![trigger out[k]]
        0 <= k < out.len() ==> (out[k]@ == base && node.word_count > 0) || gathered_item(
            out[k]@,
            base,
            node,
            upto,
        )
}

/// Mid-collection completeness: every word through one of the first `upto`
/// children appears in `out`.
spec fn gathered_complete(out: Seq<String>, base: Seq<char>, node: TrieNode, upto: int) -> bool {
    forall|j: int, s: Seq<char>|
        0 <= j < upto && (#[trigger] node.children@[j].1.count_of(s)) > 0 ==> contains_word(
            out,
            base + seq![node.children@[j].0] + s,
        )
}

/// Depth-first collection of every word held below `node`, each rendered as
/// `cur` followed by the path to its node.
fn collect_words(node: &TrieNode, cur: &Vec<char>) -> (out: Vec<String>)
    requires
        node.wf(),
    ensures
        words_sound(out@, cur@, *node),
        words_complete(out@, cur@, *node),
        words_distinct(out@),
    decreases *node,
{
    let mut out: Vec<String> = Vec::new();
    if node.word_count > 0 {
        out.push(chars_to_string(cur));
        assert(cur@ + Seq::<char>::empty() =~= cur@);
        assert(node.count_of(Seq::<char>::empty()) > 0);
    }
    let n = node.children.len();
    let mut ci: usize = 0;
    while ci < n
        invariant
            node.wf(),
            n == node.children@.len(),
            ci <= n,
            node.word_count > 0 ==> out@.len() >= 1 && out@[0]@ == cur@,
            gathered_sound(out@, cur@, *node, ci as int),
            gathered_complete(out@, cur@, *node, ci as int),
            words_distinct(out@),
        decreases n - ci,
    {
        let c = node.children[ci].0;
        let child = &node.children[ci].1;
        let mut cur2 = cur.clone();
        assert(cur2@ =~= cur@);
        cur2.push(c);
        assert(cur2@ =~= cur@ + seq![c]);
        let mut sub = collect_words(child, &cur2);
        let ghost out0 = out@;
        let ghost sub0 = sub@;
        out.append(&mut sub);
        assert(out@ =~= out0 + sub0);
        proof {
            lemma_collect_append(*node, cur@, c, *child, ci as int, out0, sub0, out@);
        }
        ci = ci + 1;
    }
    proof {
        lemma_gathered_to_words(out@, cur@, *node);
    }
    out
}

/// One step of the collection loop: appending the rendered subtree of the
/// child at `ci` preserves the loop's soundness, completeness and
/// distinctness facts.
proof fn lemma_collect_append(
    node: TrieNode,
    cur: Seq<char>,
    c: char,
    child: TrieNode,
    ci: int,
    out0: Seq<String>,
    sub0: Seq<String>,
    out1: Seq<String>,
)
    requires
        node.wf(),
        0 <= ci < node.children@.len(),
        node.children@[ci] == (c, child),
        out1 == out0 + sub0,
        words_sound(sub0, cur + seq![c], child),
        words_complete(sub0, cur + seq![c], child),
        words_distinct(sub0),
        node.word_count > 0 ==> out0.len() >= 1 && out0[0]@ == cur,
        gathered_sound(out0, cur, node, ci),
        gathered_complete(out0, cur, node, ci),
        words_distinct(out0),
    ensures
        node.word_count > 0 ==> out1.len() >= 1 && out1[0]@ == cur,
        gathered_sound(out1, cur, node, ci + 1),
        gathered_complete(out1, cur, node, ci + 1),
        words_distinct(out1),
{
    assert forall|k: int| 0 <= k < out1.len() implies ((#[trigger] out1[k])@ == cur
        && node.word_count > 0) || gathered_item(out1[k]@, cur, node, ci + 1) by {
        if k < out0.len() {
            assert(out1[k] == out0[k]);
            if !(out0[k]@ == cur && node.word_count > 0) {
                assert(gathered_item(out0[k]@, cur, node, ci));
                let (j, s): (int, Seq<char>) = choose|j: int, s: Seq<char>|
                    0 <= j < ci && out0[k]@ == cur + seq![node.children@[j].0] + s
                        && node.children@[j].1.count_of(s) > 0;
                assert(0 <= j < ci + 1 && out1[k]@ == cur + seq![node.children@[j].0] + s
                    && node.children@[j].1.count_of(s) > 0);
                assert(gathered_item(out1[k]@, cur, node, ci + 1));
            }
        } else {
            assert(out1[k] == sub0[k - out0.len()]);
            assert(rendered_item(sub0[k - out0.len()]@, cur + seq![c], child));
            let sfx = choose|sfx: Seq<char>|
                sub0[k - out0.len()]@ == (cur + seq![c]) + sfx && child.count_of(sfx) > 0;
            assert(cur + seq![node.children@[ci].0] + sfx == (cur + seq![c]) + sfx);
            assert(node.children@[ci].1 == child);
            assert(0 <= ci < ci + 1 && out1[k]@ == cur + seq![node.children@[ci].0] + sfx
                && node.children@[ci].1.count_of(sfx) > 0);
            assert(gathered_item(out1[k]@, cur, node, ci + 1));
        }
    }
    assert(gathered_sound(out1, cur, node, ci + 1));
    assert forall|j: int, s: Seq<char>|
            0 <= j < ci + 1 && (#[trigger] node.children@[j].1.count_of(s))
                > 0 implies contains_word(out1, cur + seq![node.children@[j].0] + s) by {
            if j < ci {
                assert(contains_word(out0, cur + seq![node.children@[j].0] + s));
                let k = choose|k: int|
                    0 <= k < out0.len() && out0[k]@ == cur + seq![node.children@[j].0] + s;
                assert(out1[k] == out0[k]);
                assert(0 <= k < out1.len() && out1[k]@ == cur + seq![node.children@[j].0] + s);
            } else {
                assert(node.children@[j].1 == child && node.children@[j].0 == c);
                assert(child.count_of(s) > 0);
                assert(contains_word(sub0, (cur + seq![c]) + s));
                let k = choose|k: int| 0 <= k < sub0.len() && sub0[k]@ == (cur + seq![c]) + s;
                assert(out1[out0.len() + k] == sub0[k]);
                assert(cur + seq![node.children@[j].0] + s == (cur + seq![c]) + s);
                assert(0 <= out0.len() + k < out1.len() && out1[out0.len() + k]@ == cur + seq![
                    node.children@[j].0,
                ] + s);
            }
        }
    assert(gathered_complete(out1, cur, node, ci + 1));
    assert forall|k1: int, k2: int| 0 <= k1 < k2 < out1.len() implies (#[trigger] out1[k1])@ != (
    #[trigger] out1[k2])@ by {
            if k2 < out0.len() {
                assert(out1[k1] == out0[k1] && out1[k2] == out0[k2]);
            } else if k1 >= out0.len() {
                assert(out1[k1] == sub0[k1 - out0.len()] && out1[k2] == sub0[k2 - out0.len()]);
            } else {
                assert(out1[k1] == out0[k1] && out1[k2] == sub0[k2 - out0.len()]);
                let w1 = out0[k1]@;
                assert(rendered_item(sub0[k2 - out0.len()]@, cur + seq![c], child));
                let sfx = choose|sfx: Seq<char>|
                    sub0[k2 - out0.len()]@ == (cur + seq![c]) + sfx && child.count_of(sfx) > 0;
                let w2 = (cur + seq![c]) + sfx;
                assert(out1[k2]@ == w2);
                assert(w2.len() == cur.len() + 1 + sfx.len());
                assert((cur + seq![c])[cur.len() as int] == c);
                assert(w2[cur.len() as int] == c);
                if out0[k1]@ == cur && node.word_count > 0 {
                    assert(w1.len() == cur.len());
                    assert(w1 != w2);
                } else {
                    assert(gathered_item(out0[k1]@, cur, node, ci));
                    let (j, s): (int, Seq<char>) = choose|j: int, s: Seq<char>|
                        0 <= j < ci && out0[k1]@ == cur + seq![node.children@[j].0] + s
                            && node.children@[j].1.count_of(s) > 0;
                    let cj = node.children@[j].0;
                    assert(w1 == cur + seq![cj] + s);
                    assert(w1.len() == cur.len() + 1 + s.len());
                    assert((cur + seq![cj])[cur.len() as int] == cj);
                    assert(w1[cur.len() as int] == cj);
                    assert(cj != c);
                    assert(w1 != w2);
            }
        }
    }
    assert(words_distinct(out1));
}

/// Once every child has been gathered, the loop facts say exactly that `out`
/// renders the words counted below `node`.
proof fn lemma_gathered_to_words(out: Seq<String>, base: Seq<char>, node: TrieNode)
    requires
        node.wf(),
        node.word_count > 0 ==> out.len() >= 1 && out[0]@ == base,
        gathered_sound(out, base, node, node.children@.len() as int),
        gathered_complete(out, base, node, node.children@.len() as int),
    ensures
        words_sound(out, base, node),
        words_complete(out, base, node),
{
    assert forall|k: int| 0 <= k < out.len() implies exists|sfx: Seq<char>|
            (#[trigger] out[k])@ == base + sfx && node.count_of(sfx) > 0 by {
            if out[k]@ == base && node.word_count > 0 {
                assert(base + Seq::<char>::empty() =~= base);
                assert(out[k]@ == base + Seq::<char>::empty() && node.count_of(
                    Seq::<char>::empty(),
                ) > 0);
            } else {
                let (j, s): (int, Seq<char>) = choose|j: int, s: Seq<char>|
                    0 <= j < node.children@.len() && out[k]@ == base + seq![node.children@[j].0]
                        + s && node.children@[j].1.count_of(s) > 0;
                let cj = node.children@[j].0;
                lemma_child_count(node, j, s);
                assert(base + seq![cj] + s =~= base + (seq![cj] + s));
                assert(out[k]@ == base + (seq![cj] + s) && node.count_of(seq![cj] + s) > 0);
        }
    }
    assert(words_sound(out, base, node));
    assert forall|sfx: Seq<char>| #[trigger] node.count_of(sfx) > 0 implies contains_word(
            out,
            base + sfx,
        ) by {
            if sfx.len() == 0 {
                assert(base + sfx =~= base);
                assert(out[0]@ == base + sfx);
            } else {
                let ch = find_child(node.children@, sfx[0]);
                assert(ch is Some);
                lemma_find_child_some(node.children@, sfx[0], ch->0);
                let j = choose|j: int|
                    0 <= j < node.children@.len() && #[trigger] node.children@[j] == (
                    sfx[0],
                    ch->0,
                );
                assert(node.children@[j].1.count_of(sfx.drop_first()) > 0);
                assert(contains_word(out, base + seq![node.children@[j].0] + sfx.drop_first()));
                assert(base + seq![node.children@[j].0] + sfx.drop_first() =~= base + sfx);
        }
    }
    assert(words_complete(out, base, node));
}

/// Looking up a child by its key at index `j` succeeds when keys are
/// distinct, so a word through that child is counted by the node.
proof fn lemma_child_count(node: TrieNode, j: int, s: Seq<char>)
    requires
        node.wf(),
        0 <= j < node.children@.len(),
    ensures
        node.count_of(seq![node.children@[j].0] + s) == node.children@[j].1.count_of(s),
{
    let c = node.children@[j].0;
    let w = seq![c] + s;
    assert forall|l: int| 0 <= l < j implies (#[trigger] node.children@[l]).0 != c by {
        assert(node.children@[l].0 != node.children@[j].0);
    }
    lemma_find_child_at(node.children@, c, j);
    assert(w[0] == c);
    assert(w.drop_first() =~= s);
}


/// No word is ever counted beyond `u64::MAX`.
pub broadcast proof fn lemma_count_le_max(t: Trie, w: Seq<char>)
    ensures
        #[trigger] t.count(w) <= u64::MAX,
{
    lemma_count_of_le_max(t.root, w);
}

proof fn lemma_count_of_le_max(n: TrieNode, w: Seq<char>)
    ensures
        n.count_of(w) <= u64::MAX,
    decreases w.len(),
{
    if w.len() > 0 {
        match find_child(n.children@, w[0]) {
            Some(child) => {
                lemma_count_of_le_max(child, w.drop_first());
            }
            None => {}
        }
    }
}

impl Trie {
    /// How many live contributions the word `w` has in this trie.
    pub closed spec fn count(self, w: Seq<char>) -> nat {
        self.root.count_of(w)
    }

    /// The trie's structural invariant.
    pub closed spec fn wf(self) -> bool {
        self.root.wf()
    }

    /// The trie holds nothing but its root node.
    pub closed spec fn is_root_only(self) -> bool {
        self.root.children@.len() == 0
    }

    /// An empty trie: every word has count zero.
    pub fn new() -> (t: Trie)
        ensures
            t.wf(),
            t.is_root_only(),
            forall|w: Seq<char>| t.count(w) == 0,
    {
        let t = Trie { root: TrieNode { children: Vec::new(), word_count: 0 } };
        assert forall|w: Seq<char>| true implies t.count(w) == 0 by {
            if w.len() > 0 {
                lemma_find_child_none(t.root.children@, w[0]);
            }
        }
        t
    }

    /// Add one contribution of `word`; every other word keeps its count.
    pub fn insert(&mut self, word: &str)
        requires
            old(self).wf(),
        ensures
            final(self).wf(),
            final(self).count(word@) == inc_count(old(self).count(word@)),
            forall|v: Seq<char>| v != word@ ==> final(self).count(v) == old(self).count(v),
    {
        let w = str_chars(word);
        assert(w@.skip(0) =~= word@);
        self.root.insert_at(&w, 0);
    }

    /// Take one contribution of `word` away, with a floor of zero: removing
    /// a word that is not counted changes nothing.  Every other word keeps
    /// its count.
    pub fn remove(&mut self, word: &str)
        requires
            old(self).wf(),
        ensures
            final(self).wf(),
            final(self).count(word@) == dec_count(old(self).count(word@)),
            forall|v: Seq<char>| v != word@ ==> final(self).count(v) == old(self).count(v),
            old(self).count(word@) == 0 ==> forall|v: Seq<char>|
                final(self).count(v) == old(self).count(v),
    {
        let w = str_chars(word);
        assert(w@.skip(0) =~= word@);
        let _ = self.root.remove_at(&w, 0);
    }

    /// Every word with a positive count that starts with `prefix`, each
    /// exactly once, in an unspecified order.
    pub fn suggest_completions(&self, prefix: &str) -> (r: Vec<String>)
        requires
            self.wf(),
        ensures
            forall|k: int| #![trigger r@[k]]
                0 <= k < r@.len() ==> prefix@.is_prefix_of(r@[k]@) && self.count(r@[k]@) > 0,
            forall|w: Seq<char>|
                prefix@.is_prefix_of(w) && #[trigger] self.count(w) > 0 ==> contains_word(r@, w),
            forall|k1: int, k2: int| #![trigger r@[k1], r@[k2]]
                0 <= k1 < k2 < r@.len() ==> r@[k1]@ != r@[k2]@,
    {
        let p = str_chars(prefix);
        let pn = p.len();
        let mut node: &TrieNode = &self.root;
        let mut i: usize = 0;
        assert(p@.take(0) =~= Seq::<char>::empty());
        while i < pn
            invariant
                self.wf(),
                p@ == prefix@,
                pn == p@.len(),
                i <= pn,
                node.wf(),
                descend(self.root, p@.take(i as int)) == Some(*node),
            decreases pn - i,
        {
            let c = p[i];
            match node.child_index(c) {
                Some(idx) => {
                    proof {
                        lemma_descend_push(self.root, p@.take(i as int), c);
                        assert(p@.take(i as int).push(c) =~= p@.take(i as int + 1));
                    }
                    node = &node.children[idx].1;
                }
                None => {
                    proof {
                        lemma_descend_push(self.root, p@.take(i as int), c);
                        assert(p@.take(i as int).push(c) =~= p@.take(i as int + 1));
                        assert(p@.take(i as int + 1) + p@.skip(i as int + 1) =~= p@);
                        lemma_descend_append(
                            self.root,
                            p@.take(i as int + 1),
                            p@.skip(i as int + 1),
                        );
                        assert(descend(self.root, p@) is None);
                        assert forall|w: Seq<char>|
                            prefix@.is_prefix_of(w) && #[trigger] self.count(w) > 0 implies false by {
                            assert(w =~= p@ + w.skip(pn as int));
                            lemma_count_split(self.root, p@, w.skip(pn as int));
                        }
                    }
                    return Vec::new();
                }
            }
            i = i + 1;
        }
        assert(p@.take(pn as int) =~= p@);
        let ghost at_prefix = *node;
        let out = collect_words(node, &p);
        proof {
            assert forall|k: int| 0 <= k < out@.len() implies prefix@.is_prefix_of(
                (#[trigger] out@[k])@,
            ) && self.count(out@[k]@) > 0 by {
                assert(rendered_item(out@[k]@, p@, at_prefix));
                let sfx = choose|sfx: Seq<char>|
                    out@[k]@ == p@ + sfx && at_prefix.count_of(sfx) > 0;
                lemma_count_split(self.root, p@, sfx);
                assert(self.count(out@[k]@) > 0);
                assert((p@ + sfx).subrange(0, pn as int) =~= p@);
            }
            assert forall|w: Seq<char>|
                prefix@.is_prefix_of(w) && #[trigger] self.count(w) > 0 implies contains_word(
                out@,
                w,
            ) by {
                let sfx = w.skip(pn as int);
                assert(w =~= p@ + sfx);
                lemma_count_split(self.root, p@, sfx);
                assert(at_prefix.count_of(sfx) > 0);
                assert(contains_word(out@, p@ + sfx));
            }
        }
        out
    }
}

/// Every live, well-formed node counts at least one word: liveness means a
/// positive count here or a child, and children are live in turn.
proof fn lemma_live_counts_something(n: TrieNode)
    requires
        n.wf(),
        n.live(),
    ensures
        exists|w: Seq<char>| n.count_of(w) > 0,
    decreases n,
{
    if n.word_count > 0 {
        assert(n.count_of(Seq::<char>::empty()) > 0);
    } else {
        let child = n.children@[0].1;
        assert(child.wf() && child.live());
        lemma_live_counts_something(child);
        let w = choose|w: Seq<char>| child.count_of(w) > 0;
        lemma_child_count(n, 0, w);
        assert(n.count_of(seq![n.children@[0].0] + w) > 0);
    }
}

impl Trie {
    /// The pruning law: a well-formed trie in which every word has count
    /// zero has no node besides its root.
    pub proof fn lemma_empty_is_root_only(self)
        requires
            self.wf(),
            forall|w: Seq<char>| self.count(w) == 0,
        ensures
            self.is_root_only(),
    {
        if self.root.children@.len() > 0 {
            let child = self.root.children@[0].1;
            assert(child.wf() && child.live());
            lemma_live_counts_something(child);
            let w = choose|w: Seq<char>| child.count_of(w) > 0;
            lemma_child_count(self.root, 0, w);
            assert(self.count(seq![self.root.children@[0].0] + w) > 0);
        }
    }
}

} // verus!
