//! Tokenizing text into identifier-like words, and the cursor arithmetic
//! behind completion queries.
//!
//! A token is a maximal run of valid word characters (alphanumeric or
//! underscore).  A run is accepted as a word only when it is long enough,
//! not made of digits alone, and not starting with a digit.

use vstd::prelude::*;

verus! {

broadcast use vstd::string::group_string_axioms;

use crate::text::chars_to_string;
use crate::text::str_chars;

/// What `char::is_alphanumeric` returns for a character; the result depends
/// on the character alone.
pub uninterp spec fn alphanumeric_char(c: char) -> bool;

/// Relies on `char::is_alphanumeric` of std: whether the character is in
/// Unicode's Alphabetic or Number categories.
#[verifier::external_body]
fn is_alphanumeric_char(c: char) -> (r: bool)
    ensures
        r == alphanumeric_char(c),
{
    c.is_alphanumeric()
}

/// A character that may appear inside a token.
pub open spec fn spec_valid_token_char(c: char) -> bool {
    alphanumeric_char(c) || c == '_'
}

/// The token-character test as a value, for splitting text into runs.
pub open spec fn token_char_fn() -> spec_fn(char) -> bool {
    |c: char| spec_valid_token_char(c)
}

/// Whether `ch` may appear inside a token: alphanumeric or underscore.
pub fn valid_token_char(ch: char) -> (r: bool)
    ensures
        r == spec_valid_token_char(ch),
{
    is_alphanumeric_char(ch) || ch == '_'
}

/// A decimal digit.
pub open spec fn decimal_digit(c: char) -> bool {
    '0' <= c && c <= '9'
}

fn is_decimal_digit(c: char) -> (r: bool)
    ensures
        r == decimal_digit(c),
{
    c >= '0' && c <= '9'
}

/// Every character of `w` is a decimal digit (vacuously true of nothing).
pub open spec fn all_digits(w: Seq<char>) -> bool {
    forall|i: int| 0 <= i < w.len() ==> decimal_digit(#[trigger] w[i])
}

/// The acceptance policy for a candidate word: long enough, not digits
/// alone, and not starting with a digit.
pub open spec fn spec_is_token(w: Seq<char>, min_len: nat) -> bool {
    &&& w.len() >= min_len
    &&& !all_digits(w)
    &&& (w.len() == 0 || !decimal_digit(w[0]))
}

/// The acceptance policy as a value, for filtering runs.
pub open spec fn token_pred(min_len: nat) -> spec_fn(Seq<char>) -> bool {
    |w: Seq<char>| spec_is_token(w, min_len)
}

/// Whether the candidate word `current` passes the acceptance policy.
pub fn is_token(current: &Vec<char>, min_len: usize) -> (r: bool)
    ensures
        r == spec_is_token(current@, min_len as nat),
{
    if current.len() < min_len {
        return false;
    }
    let n = current.len();
    let mut k: usize = 0;
    let mut digits_only = true;
    while k < n
        invariant
            k <= n,
            n == current@.len(),
            digits_only ==> (forall|i: int| 0 <= i < k ==> decimal_digit(#[trigger] current@[i])),
            !digits_only ==> !all_digits(current@),
        decreases n - k,
    {
        if !is_decimal_digit(current[k]) {
            assert(!decimal_digit(current@[k as int]));
            digits_only = false;
            k = n;
        } else {
            k = k + 1;
        }
    }
    if digits_only {
        return false;
    }
    if current.len() > 0 && is_decimal_digit(current[0]) {
        return false;
    }
    true
}

/// The length of the initial run of characters satisfying `valid`.
pub open spec fn run_len(s: Seq<char>, valid: spec_fn(char) -> bool) -> nat
    decreases s.len(),
{
    if s.len() > 0 && valid(s[0]) {
        (run_len(s.drop_first(), valid) + 1) as nat
    } else {
        0
    }
}

/// The initial run is never longer than the sequence.
pub proof fn lemma_run_len_le(s: Seq<char>, valid: spec_fn(char) -> bool)
    ensures
        run_len(s, valid) <= s.len(),
    decreases s.len(),
{
    if s.len() > 0 && valid(s[0]) {
        lemma_run_len_le(s.drop_first(), valid);
    }
}

/// The maximal runs of characters satisfying `valid`, in order: `s` split on
/// the characters that fail `valid`.
pub open spec fn token_runs(s: Seq<char>, valid: spec_fn(char) -> bool) -> Seq<Seq<char>>
    decreases s.len(),
    via token_runs_decreases
{
    if s.len() == 0 {
        Seq::empty()
    } else if !valid(s[0]) {
        token_runs(s.drop_first(), valid)
    } else {
        seq![s.take(run_len(s, valid) as int)] + token_runs(s.skip(run_len(s, valid) as int), valid)
    }
}

#[via_fn]
proof fn token_runs_decreases(s: Seq<char>, valid: spec_fn(char) -> bool) {
    if s.len() > 0 && valid(s[0]) {
        lemma_run_len_le(s, valid);
    }
}

/// The initial run length is `m` exactly when the first `m` characters are
/// valid and the next one (if any) is not.
pub proof fn lemma_run_len_is(s: Seq<char>, valid: spec_fn(char) -> bool, m: int)
    requires
        0 <= m <= s.len(),
        forall|i: int| 0 <= i < m ==> valid(#[trigger] s[i]),
        m == s.len() || !valid(s[m]),
    ensures
        run_len(s, valid) == m,
    decreases m,
{
    if m == 0 {
    } else {
        assert(valid(s[0]));
        assert(forall|i: int| 0 <= i < m - 1 ==> #[trigger] s.drop_first()[i] == s[i + 1]);
        if m < s.len() {
            assert(s.drop_first()[m - 1] == s[m]);
        }
        lemma_run_len_is(s.drop_first(), valid, m - 1);
    }
}

/// Skipping an invalid character drops no run.
pub proof fn lemma_token_runs_skip_invalid(s: Seq<char>, valid: spec_fn(char) -> bool, i: int)
    requires
        0 <= i < s.len(),
        !valid(s[i]),
    ensures
        token_runs(s.skip(i), valid) == token_runs(s.skip(i + 1), valid),
{
    assert(s.skip(i)[0] == s[i]);
    assert(s.skip(i).drop_first() =~= s.skip(i + 1));
}

/// When a maximal run `[i, e)` starts at `i`, the runs from `i` are that run
/// followed by the runs from `e`.
pub proof fn lemma_token_runs_step(s: Seq<char>, valid: spec_fn(char) -> bool, i: int, e: int)
    requires
        0 <= i < e <= s.len(),
        forall|k: int| i <= k < e ==> valid(#[trigger] s[k]),
        e == s.len() || !valid(s[e]),
    ensures
        token_runs(s.skip(i), valid) == seq![s.subrange(i, e)] + token_runs(s.skip(e), valid),
{
    let t = s.skip(i);
    assert(forall|k: int| 0 <= k < t.len() ==> #[trigger] t[k] == s[k + i]);
    assert(t[0] == s[i]);
    lemma_run_len_is(t, valid, e - i);
    assert(t.take(e - i) =~= s.subrange(i, e));
    assert(t.skip(e - i) =~= s.skip(e));
}

/// The tokens of a text: its maximal runs of token characters, kept when
/// they pass the acceptance policy for `min_len`.
pub open spec fn spec_tokens(s: Seq<char>, min_len: nat) -> Seq<Seq<char>> {
    token_runs(s, token_char_fn()).filter(token_pred(min_len))
}

/// Filtering a sequence extended by one element keeps the filtered front and
/// appends the element when it passes.
pub proof fn lemma_filter_push<A>(s: Seq<A>, x: A, pred: spec_fn(A) -> bool)
    ensures
        (s + seq![x]).filter(pred) == if pred(x) {
            s.filter(pred).push(x)
        } else {
            s.filter(pred)
        },
{
    reveal_with_fuel(Seq::filter, 2);
    let sx = s + seq![x];
    assert(sx.len() == s.len() + 1);
    assert(sx.drop_last() =~= s);
    assert(sx.last() == x);
    if pred(x) {
        assert(sx.filter(pred) == s.filter(pred).push(x));
    }
}

/// Split `token` into maximal runs of token characters and keep those that
/// pass the acceptance policy, in order of appearance.
pub fn process_token(token: &str, min_len: usize) -> (r: Vec<String>)
    ensures
        r.deep_view() == spec_tokens(token@, min_len as nat),
{
    let s = str_chars(token);
    let n = s.len();
    let mut cleaned: Vec<String> = Vec::new();
    let ghost mut seen: Seq<Seq<char>> = Seq::empty();
    let mut i: usize = 0;
    assert(s@.skip(0) =~= s@);
    while i < n
        invariant
            n == s@.len(),
            s@ == token@,
            i <= n,
            token_runs(s@, token_char_fn()) == seen + token_runs(
                s@.skip(i as int),
                token_char_fn(),
            ),
            cleaned.deep_view() == seen.filter(token_pred(min_len as nat)),
        decreases n - i,
    {
        if !valid_token_char(s[i]) {
            proof {
                assert(!token_char_fn()(s@[i as int]));
                lemma_token_runs_skip_invalid(s@, token_char_fn(), i as int);
            }
            i = i + 1;
        } else {
            let start = i;
            let mut j = i;
            assert(token_char_fn()(s@[start as int]));
            while j < n && valid_token_char(s[j])
                invariant
                    start <= j <= n,
                    n == s@.len(),
                    forall|k: int| start <= k < j ==> token_char_fn()(#[trigger] s@[k]),
                decreases n - j,
            {
                assert(token_char_fn()(s@[j as int]));
                j = j + 1;
            }
            assert(j == n || !token_char_fn()(s@[j as int]));
            assert(start < j) by {
                assert(token_char_fn()(s@[start as int]));
            }
            let ghost run = s@.subrange(start as int, j as int);
            proof {
                lemma_token_runs_step(s@, token_char_fn(), start as int, j as int);
            }
            let mut current: Vec<char> = Vec::new();
            let mut k = start;
            while k < j
                invariant
                    start <= k <= j <= n,
                    n == s@.len(),
                    current@ == s@.subrange(start as int, k as int),
                decreases j - k,
            {
                current.push(s[k]);
                assert(current@ =~= s@.subrange(start as int, k + 1));
                k = k + 1;
            }
            assert(current@ == run);
            let ghost seen0 = seen;
            proof {
                seen = seen + seq![run];
                assert((seen0 + seq![run]) + token_runs(s@.skip(j as int), token_char_fn()) =~=
                seen0 + (seq![run] + token_runs(s@.skip(j as int), token_char_fn())));
            }
            let accept = is_token(&current, min_len);
            proof {
                assert(token_pred(min_len as nat)(run) == spec_is_token(run, min_len as nat));
            }
            if accept {
                cleaned.push(chars_to_string(&current));
            }
            proof {
                lemma_filter_push(seen0, run, token_pred(min_len as nat));
                if accept {
                    assert(cleaned.deep_view() =~= seen0.filter(token_pred(min_len as nat)).push(
                        run,
                    ));
                }
            }
            i = j;
        }
    }
    assert(s@.skip(n as int) =~= Seq::<char>::empty());
    assert(token_runs(s@, token_char_fn()) =~= seen);
    cleaned
}

/// Everything but the separator `sep`.
pub open spec fn not_char_fn(sep: char) -> spec_fn(char) -> bool {
    |c: char| c != sep
}

/// The segments of `s` between occurrences of `sep`, in order.  Empty
/// segments are kept, and a text without separators is a single segment.
pub open spec fn split_on(s: Seq<char>, sep: char) -> Seq<Seq<char>>
    decreases s.len(),
    via split_on_decreases
{
    let r = run_len(s, not_char_fn(sep)) as int;
    if r == s.len() {
        seq![s]
    } else {
        seq![s.take(r)] + split_on(s.skip(r + 1), sep)
    }
}

#[via_fn]
proof fn split_on_decreases(s: Seq<char>, sep: char) {
    lemma_run_len_le(s, not_char_fn(sep));
}

/// The lines of a text: its segments between newline characters.
pub open spec fn split_lines(s: Seq<char>) -> Seq<Seq<char>> {
    split_on(s, '\n')
}

/// When `[i, e)` is separator-free and `e` sits on a separator (or the end),
/// the segments from `i` are that segment followed by the segments after `e`.
pub proof fn lemma_split_on_step(s: Seq<char>, sep: char, i: int, e: int)
    requires
        0 <= i <= e <= s.len(),
        forall|k: int| i <= k < e ==> (#[trigger] s[k]) != sep,
        e == s.len() || s[e] == sep,
    ensures
        split_on(s.skip(i), sep) == if e == s.len() {
            seq![s.subrange(i, e)]
        } else {
            seq![s.subrange(i, e)] + split_on(s.skip(e + 1), sep)
        },
{
    let t = s.skip(i);
    assert(forall|k: int| 0 <= k < t.len() ==> #[trigger] t[k] == s[k + i]);
    assert forall|k: int| 0 <= k < e - i implies not_char_fn(sep)(#[trigger] t[k]) by {
        assert(t[k] == s[k + i]);
    }
    if e < s.len() {
        assert(!not_char_fn(sep)(t[e - i]));
    }
    lemma_run_len_is(t, not_char_fn(sep), e - i);
    assert(t.take(e - i) =~= s.subrange(i, e));
    if e == s.len() {
        assert(t =~= s.subrange(i, e));
    } else {
        assert(t.skip(e - i + 1) =~= s.skip(e + 1));
    }
}

/// The line with index `idx` of `content`, where lines are the segments
/// between newline characters.
pub fn line_at(content: &str, idx: usize) -> (r: Option<String>)
    ensures
        match r {
            Some(l) => idx < split_lines(content@).len() && l@ == split_lines(content@)[idx as int],
            None => idx >= split_lines(content@).len(),
        },
{
    let s = str_chars(content);
    let n = s.len();
    let ghost whole = content@;
    let ghost mut done: Seq<Seq<char>> = Seq::empty();
    let mut i: usize = 0;
    let mut seg: usize = 0;
    assert(whole.skip(0) =~= whole);
    loop
        invariant
            whole == content@,
            i <= n,
            n == whole.len(),
            s@ == whole,
            seg <= idx,
            done.len() == seg,
            split_lines(whole) == done + split_lines(whole.skip(i as int)),
        decreases n - i, idx - seg,
    {
        let start = i;
        let mut e = i;
        while e < n && s[e] != '\n'
            invariant
                start <= e <= n,
                n == whole.len(),
                s@ == whole,
                forall|k: int| start <= k < e ==> (#[trigger] whole[k]) != '\n',
            decreases n - e,
        {
            e = e + 1;
        }
        proof {
            lemma_split_on_step(whole, '\n', start as int, e as int);
        }
        if seg == idx {
            let mut out: Vec<char> = Vec::new();
            let mut k = start;
            while k < e
                invariant
                    start <= k <= e <= n,
                    n == whole.len(),
                    s@ == whole,
                    out@ == whole.subrange(start as int, k as int),
                decreases e - k,
            {
                out.push(s[k]);
                assert(out@ =~= whole.subrange(start as int, k + 1));
                k = k + 1;
            }
            proof {
                let rest = split_lines(whole.skip(start as int));
                assert(rest[0] == whole.subrange(start as int, e as int));
                assert(split_lines(whole).len() == done.len() + rest.len());
                assert(idx < split_lines(whole).len());
                assert(split_lines(whole)[idx as int] == rest[idx - seg]);
                assert(split_lines(whole)[idx as int] == whole.subrange(start as int, e as int));
            }
            return Some(chars_to_string(&out));
        }
        if e == n {
            proof {
                let rest = split_lines(whole.skip(start as int));
                assert(rest.len() == 1);
                assert(split_lines(whole).len() == done.len() + rest.len());
                assert(idx >= split_lines(whole).len());
            }
            return None;
        }
        proof {
            done = done + seq![whole.subrange(start as int, e as int)];
            assert(done + split_lines(whole.skip(e + 1)) =~= split_lines(whole));
        }
        i = e + 1;
        seg = seg + 1;
    }
}

/// All the lines of `content`, in order.
pub fn split_to_lines(content: &str) -> (r: Vec<String>)
    ensures
        r.deep_view() == split_lines(content@),
{
    let s = str_chars(content);
    let n = s.len();
    let ghost whole = content@;
    let mut out: Vec<String> = Vec::new();
    let mut i: usize = 0;
    assert(whole.skip(0) =~= whole);
    loop
        invariant
            whole == content@,
            i <= n,
            n == whole.len(),
            s@ == whole,
            split_lines(whole) == out.deep_view() + split_on(whole.skip(i as int), '\n'),
        decreases n - i,
    {
        let start = i;
        let mut e = i;
        while e < n && s[e] != '\n'
            invariant
                start <= e <= n,
                n == whole.len(),
                s@ == whole,
                forall|k: int| start <= k < e ==> (#[trigger] whole[k]) != '\n',
            decreases n - e,
        {
            e = e + 1;
        }
        proof {
            lemma_split_on_step(whole, '\n', start as int, e as int);
        }
        let mut seg: Vec<char> = Vec::new();
        let mut k = start;
        while k < e
            invariant
                start <= k <= e <= n,
                n == whole.len(),
                s@ == whole,
                seg@ == whole.subrange(start as int, k as int),
            decreases e - k,
        {
            seg.push(s[k]);
            assert(seg@ =~= whole.subrange(start as int, k + 1));
            k = k + 1;
        }
        let ghost dv0 = out.deep_view();
        out.push(chars_to_string(&seg));
        assert(out.deep_view() =~= dv0.push(whole.subrange(start as int, e as int)));
        if e == n {
            proof {
                assert(dv0 + split_on(whole.skip(start as int), '\n') =~= out.deep_view());
            }
            return out;
        }
        proof {
            assert(dv0.push(whole.subrange(start as int, e as int)) + split_on(
                whole.skip(e + 1),
                '\n',
            ) =~= dv0 + (seq![whole.subrange(start as int, e as int)] + split_on(
                whole.skip(e + 1),
                '\n',
            )));
        }
        i = e + 1;
    }
}

/// The column to scan back from: one left of `character`, clamped to the
/// line's last character.
pub open spec fn scan_index(s: Seq<char>, character: int) -> int {
    if character - 1 <= s.len() - 1 {
        character - 1
    } else {
        s.len() - 1
    }
}

/// Where the run of token characters ending at `i` begins: scan left from
/// `i` while characters are valid; the answer is one past the first failure.
pub open spec fn run_start(s: Seq<char>, i: int) -> int
    decreases
            (if i >= 0 {
                i + 1
            } else {
                0
            }),
{
    if i >= 0 && i < s.len() && spec_valid_token_char(s[i]) {
        run_start(s, i - 1)
    } else {
        i + 1
    }
}

/// Where the run of token characters starting at `k` ends: scan right from
/// `k` while characters are valid; the answer is the first failing index.
pub open spec fn run_end(s: Seq<char>, k: int) -> int
    decreases
            (if 0 <= k && k <= s.len() {
                s.len() - k
            } else {
                0
            }),
{
    if 0 <= k < s.len() && spec_valid_token_char(s[k]) {
        run_end(s, k + 1)
    } else {
        k
    }
}

/// The scan-back start lies between zero and one past its origin.
pub proof fn lemma_run_start_bounds(s: Seq<char>, i: int)
    requires
        i >= -1,
    ensures
        0 <= run_start(s, i) <= i + 1,
    decreases i + 1,
{
    if i >= 0 && i < s.len() && spec_valid_token_char(s[i]) {
        lemma_run_start_bounds(s, i - 1);
    }
}

/// The scan-forward end lies between its origin and the line's end.
pub proof fn lemma_run_end_bounds(s: Seq<char>, k: int)
    requires
        0 <= k <= s.len(),
    ensures
        k <= run_end(s, k) <= s.len(),
    decreases s.len() - k,
{
    if k < s.len() && spec_valid_token_char(s[k]) {
        lemma_run_end_bounds(s, k + 1);
    }
}

/// The text to complete at a cursor: the run of token characters that ends
/// just left of column `character`.
pub open spec fn spec_word_prefix(s: Seq<char>, character: int) -> Seq<char> {
    let i0 = scan_index(s, character);
    if i0 < 0 {
        Seq::empty()
    } else {
        s.subrange(run_start(s, i0), i0 + 1)
    }
}

/// The run of token characters just left of column `character` of the line.
pub fn get_word_prefix(current_line: &str, character: i32) -> (r: String)
    ensures
        r@ == spec_word_prefix(current_line@, character as int),
{
    let line = str_chars(current_line);
    let n = line.len();
    let ghost s = current_line@;
    if character <= 0 || n == 0 {
        assert(scan_index(s, character as int) < 0);
        return String::new();
    }
    let ci = (character - 1) as usize;
    let i0 = if ci <= n - 1 {
        ci
    } else {
        n - 1
    };
    assert(i0 as int == scan_index(s, character as int));
    let mut j: usize = i0 + 1;
    while j > 0 && valid_token_char(line[j - 1])
        invariant
            j <= i0 + 1,
            i0 < n,
            n == s.len(),
            line@ == s,
            run_start(s, i0 as int) == run_start(s, j as int - 1),
        decreases j,
    {
        j = j - 1;
    }
    assert(j as int == run_start(s, i0 as int));
    let mut out: Vec<char> = Vec::new();
    let mut k = j;
    while k <= i0
        invariant
            j <= k <= i0 + 1,
            i0 < n,
            n == s.len(),
            line@ == s,
            out@ == s.subrange(j as int, k as int),
        decreases i0 + 1 - k,
    {
        out.push(line[k]);
        assert(out@ =~= s.subrange(j as int, k + 1));
        k = k + 1;
    }
    chars_to_string(&out)
}

/// The non-empty prefixes of the token under the cursor, from its first
/// character up to the token's end: what the user can already see typed.
pub open spec fn spec_visible_words(s: Seq<char>, character: int) -> Seq<Seq<char>> {
    if character < 0 {
        Seq::empty()
    } else {
        let j = run_start(s, scan_index(s, character));
        let e = run_end(s, j);
        Seq::new((e - j) as nat, |m: int| s.subrange(j, j + m + 1))
    }
}

/// Every non-empty prefix of the token under the cursor, shortest first.
pub fn get_possible_current_word(current_line: &str, character: i32) -> (r: Vec<String>)
    ensures
        r.deep_view() == spec_visible_words(current_line@, character as int),
{
    let line = str_chars(current_line);
    let n = line.len();
    let ghost s = current_line@;
    if character < 0 {
        return Vec::new();
    }
    let c = character as usize;
    let start = if c <= n {
        c
    } else {
        n
    };
    assert(start as int - 1 == scan_index(s, character as int));
    let mut j: usize = start;
    while j > 0 && valid_token_char(line[j - 1])
        invariant
            j <= start <= n,
            n == s.len(),
            line@ == s,
            run_start(s, start as int - 1) == run_start(s, j as int - 1),
        decreases j,
    {
        j = j - 1;
    }
    assert(j as int == run_start(s, start as int - 1));
    let mut cur: Vec<char> = Vec::new();
    let mut out: Vec<String> = Vec::new();
    let mut k = j;
    while k < n && valid_token_char(line[k])
        invariant
            j <= k <= n,
            n == s.len(),
            line@ == s,
            run_end(s, j as int) == run_end(s, k as int),
            cur@ == s.subrange(j as int, k as int),
            out.deep_view().len() == k - j,
            forall|m: int|
                0 <= m < k - j ==> out.deep_view()[m] == s.subrange(j as int, j + m + 1),
        decreases n - k,
    {
        cur.push(line[k]);
        assert(cur@ =~= s.subrange(j as int, k + 1));
        let ghost dv0 = out.deep_view();
        out.push(chars_to_string(&cur));
        assert(out.deep_view() =~= dv0.push(s.subrange(j as int, k + 1)));
        k = k + 1;
    }
    assert(k as int == run_end(s, j as int));
    assert(out.deep_view() =~= spec_visible_words(s, character as int));
    out
}

/// Whether `ws` holds the characters `w`.
pub open spec fn contains_chars(ws: Seq<Seq<char>>, w: Seq<char>) -> bool {
    exists|k: int| 0 <= k < ws.len() && ws[k] == w
}

/// The test that a word is not among the visible ones, as a value.
pub open spec fn not_visible_pred(vis: Seq<Seq<char>>) -> spec_fn(Seq<char>) -> bool {
    |w: Seq<char>| !contains_chars(vis, w)
}

fn contains_string(v: &Vec<String>, s: &String) -> (r: bool)
    ensures
        r == contains_chars(v.deep_view(), s@),
{
    let n = v.len();
    let mut k: usize = 0;
    while k < n
        invariant
            k <= n,
            n == v@.len(),
            forall|m: int| 0 <= m < k ==> v.deep_view()[m] != s@,
        decreases n - k,
    {
        if *s == v[k] {
            assert(v.deep_view()[k as int] == s@);
            return true;
        }
        k = k + 1;
    }
    false
}

/// No two entries of `ws` are the same characters.
pub open spec fn distinct_words(ws: Seq<Seq<char>>) -> bool {
    forall|k1: int, k2: int| #![trigger ws[k1], ws[k2]]
        0 <= k1 < k2 < ws.len() ==> ws[k1] != ws[k2]
}

/// A word is in a filtered sequence exactly when it is in the original and
/// passes the predicate.
pub proof fn lemma_filter_contains_chars(s: Seq<Seq<char>>, pred: spec_fn(Seq<char>) -> bool)
    ensures
        forall|w: Seq<char>|
            contains_chars(#[trigger] s.filter(pred), w) <==> (contains_chars(s, w) && pred(w)),
    decreases s.len(),
{
    reveal_with_fuel(Seq::filter, 1);
    if s.len() == 0 {
        assert(forall|w: Seq<char>| !contains_chars(s, w));
        assert(s.filter(pred) =~= Seq::<Seq<char>>::empty());
    } else {
        let d = s.drop_last();
        let l = s.last();
        lemma_filter_contains_chars(d, pred);
        assert forall|w: Seq<char>| contains_chars(s, w) <==> (contains_chars(d, w) || l
            == w) by {
            if contains_chars(s, w) {
                let k = choose|k: int| 0 <= k < s.len() && s[k] == w;
                if k < s.len() - 1 {
                    assert(d[k] == w);
                }
            }
            if contains_chars(d, w) {
                let k = choose|k: int| 0 <= k < d.len() && d[k] == w;
                assert(s[k] == w);
            }
            if l == w {
                assert(s[s.len() - 1] == w);
            }
        }
        if pred(l) {
            let f = d.filter(pred).push(l);
            assert(s.filter(pred) == f);
            assert forall|w: Seq<char>| contains_chars(f, w) <==> (contains_chars(
                d.filter(pred),
                w,
            ) || l == w) by {
                if contains_chars(f, w) {
                    let k = choose|k: int| 0 <= k < f.len() && f[k] == w;
                    if k < f.len() - 1 {
                        assert(d.filter(pred)[k] == w);
                    }
                }
                if contains_chars(d.filter(pred), w) {
                    let k = choose|k: int| 0 <= k < d.filter(pred).len() && d.filter(pred)[k] == w;
                    assert(f[k] == w);
                }
                if l == w {
                    assert(f[f.len() - 1] == w);
                }
            }
        } else {
            assert(s.filter(pred) == d.filter(pred));
        }
    }
}

/// Filtering keeps words distinct.
pub proof fn lemma_filter_distinct(s: Seq<Seq<char>>, pred: spec_fn(Seq<char>) -> bool)
    requires
        distinct_words(s),
    ensures
        distinct_words(s.filter(pred)),
    decreases s.len(),
{
    reveal_with_fuel(Seq::filter, 1);
    if s.len() == 0 {
    } else {
        let d = s.drop_last();
        let l = s.last();
        assert forall|k1: int, k2: int| 0 <= k1 < k2 < d.len() implies #[trigger] d[k1] != (
        #[trigger] d[k2]) by {
            assert(s[k1] == d[k1] && s[k2] == d[k2]);
        }
        lemma_filter_distinct(d, pred);
        if pred(l) {
            assert(!contains_chars(d, l)) by {
                if contains_chars(d, l) {
                    let k = choose|k: int| 0 <= k < d.len() && d[k] == l;
                    assert(s[k] == s[s.len() - 1]);
                }
            }
            lemma_filter_contains_chars(d, pred);
            assert(!contains_chars(d.filter(pred), l));
            let f = d.filter(pred).push(l);
            assert(s.filter(pred) == f);
            assert forall|k1: int, k2: int| 0 <= k1 < k2 < f.len() implies #[trigger] f[k1] != (
            #[trigger] f[k2]) by {
                if k2 < f.len() - 1 {
                    assert(f[k1] == d.filter(pred)[k1] && f[k2] == d.filter(pred)[k2]);
                } else {
                    assert(f[k1] == d.filter(pred)[k1]);
                    assert(f[k2] == l);
                    if f[k1] == l {
                        assert(contains_chars(d.filter(pred), l));
                    }
                }
            }
        } else {
            assert(s.filter(pred) == d.filter(pred));
        }
    }
}

/// Drop every suggestion whose text is already visible at the cursor, so
/// that the user is not offered exactly what is typed.  Order is kept.
pub fn filter_visible_words(words: Vec<String>, suffixes: &Vec<String>) -> (r: Vec<String>)
    ensures
        r.deep_view() == words.deep_view().filter(not_visible_pred(suffixes.deep_view())),
{
    let ghost pred = not_visible_pred(suffixes.deep_view());
    let n = words.len();
    let mut r: Vec<String> = Vec::new();
    let mut i: usize = 0;
    assert(words.deep_view().take(0) =~= Seq::<Seq<char>>::empty());
    assert(Seq::<Seq<char>>::empty().filter(pred) =~= Seq::<Seq<char>>::empty()) by {
        reveal_with_fuel(Seq::filter, 1);
    }
    while i < n
        invariant
            i <= n,
            n == words@.len(),
            r.deep_view() == words.deep_view().take(i as int).filter(pred),
            pred == not_visible_pred(suffixes.deep_view()),
        decreases n - i,
    {
        let ghost w = words.deep_view()[i as int];
        proof {
            assert(words.deep_view().take(i + 1) =~= words.deep_view().take(i as int) + seq![w]);
            lemma_filter_push(words.deep_view().take(i as int), w, pred);
        }
        if !contains_string(suffixes, &words[i]) {
            assert(pred(w));
            r.push(words[i].clone());
            assert(r.deep_view() =~= words.deep_view().take(i as int).filter(pred).push(w));
        } else {
            assert(!pred(w));
        }
        i = i + 1;
    }
    assert(words.deep_view().take(n as int) =~= words.deep_view());
    r
}

} // verus!
