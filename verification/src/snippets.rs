//! Snippet files: the `snippet <name>` format, the filetype table that maps
//! file extensions to snippet groups, and rendering a snippet as markdown.
//!
//! A snippet file is a sequence of lines.  A line starting with `snippet`
//! opens a snippet whose name is the rest of that line; the lines up to the
//! next header that start with a tab form its body.  In a body line the
//! first tab is dropped and every further tab becomes two spaces.

use vstd::prelude::*;

verus! {

broadcast use vstd::string::group_string_axioms;

use crate::basecode_lsp::util::lemma_filter_push;
use crate::basecode_lsp::util::lemma_run_len_is;
use crate::basecode_lsp::util::lemma_run_len_le;
use crate::basecode_lsp::util::not_char_fn;
use crate::basecode_lsp::util::run_len;
use crate::basecode_lsp::util::split_lines;
use crate::basecode_lsp::util::split_on;
use crate::basecode_lsp::util::split_to_lines;
use crate::text::chars_to_string;
use crate::text::str_chars;

/// A named snippet, with its body and the filetype it belongs to.
pub struct Snippet {
    pub name: String,
    pub snippet: String,
    pub filetype: String,
}

impl Snippet {
    /// The snippet rendered as a fenced markdown code block.
    pub fn markdown(&self) -> (r: String)
        ensures
            r@ == "```"@ + self.filetype@ + "\n"@ + self.snippet@ + "```"@,
    {
        let mut r = String::new();
        r.append("```");
        r.append(self.filetype.as_str());
        r.append("\n");
        r.append(self.snippet.as_str());
        r.append("```");
        r
    }
}

/// One tab seen so far or not: the text with the first tab dropped and every
/// further tab turned into two spaces.
pub open spec fn spec_transform_chars(s: Seq<char>, seen_tab: bool) -> Seq<char>
    decreases s.len(),
{
    if s.len() == 0 {
        Seq::empty()
    } else if s[0] == '\t' {
        if seen_tab {
            seq![' ', ' '] + spec_transform_chars(s.drop_first(), true)
        } else {
            spec_transform_chars(s.drop_first(), true)
        }
    } else {
        seq![s[0]] + spec_transform_chars(s.drop_first(), seen_tab)
    }
}

/// A body line cleaned for display: the leading tab dropped, deeper tabs
/// shown as two spaces.
pub open spec fn spec_transform_line(s: Seq<char>) -> Seq<char> {
    spec_transform_chars(s, false)
}

/// The line cleaning as a value.
pub open spec fn transform_line_fn() -> spec_fn(Seq<char>) -> Seq<char> {
    |l: Seq<char>| spec_transform_line(l)
}

/// Drop the first tab of `input` and turn every further tab into two spaces.
pub fn transform_line(input: &str) -> (r: String)
    ensures
        r@ == spec_transform_line(input@),
{
    let s = str_chars(input);
    let n = s.len();
    let ghost whole = input@;
    let mut out: Vec<char> = Vec::new();
    let mut found_first_tab = false;
    let mut i: usize = 0;
    assert(whole.skip(0) =~= whole);
    while i < n
        invariant
            whole == input@,
            i <= n,
            n == whole.len(),
            s@ == whole,
            spec_transform_chars(whole, false) == out@ + spec_transform_chars(
                whole.skip(i as int),
                found_first_tab,
            ),
        decreases n - i,
    {
        let ghost rest = whole.skip(i as int);
        assert(rest[0] == whole[i as int]);
        assert(rest.drop_first() =~= whole.skip(i + 1));
        if s[i] == '\t' {
            if !found_first_tab {
                found_first_tab = true;
            } else {
                out.push(' ');
                out.push(' ');
                assert(out@ =~= (out@.subrange(0, out@.len() - 2)) + seq![' ', ' ']);
                proof {
                    assert((out@.subrange(0, out@.len() - 2) + seq![' ', ' '])
                        + spec_transform_chars(whole.skip(i + 1), true) =~= out@.subrange(
                        0,
                        out@.len() - 2,
                    ) + (seq![' ', ' '] + spec_transform_chars(whole.skip(i + 1), true)));
                }
            }
        } else {
            let ghost out0 = out@;
            out.push(s[i]);
            proof {
                assert(out@ =~= out0 + seq![whole[i as int]]);
                assert((out0 + seq![whole[i as int]]) + spec_transform_chars(
                    whole.skip(i + 1),
                    found_first_tab,
                ) =~= out0 + (seq![whole[i as int]] + spec_transform_chars(
                    whole.skip(i + 1),
                    found_first_tab,
                )));
            }
        }
        i = i + 1;
    }
    assert(whole.skip(n as int) =~= Seq::<char>::empty());
    assert(out@ =~= spec_transform_chars(whole, false));
    chars_to_string(&out)
}

/// A header line: it starts with the word `snippet`.
pub open spec fn is_snippet_header(l: Seq<char>) -> bool {
    seq!['s', 'n', 'i', 'p', 'p', 'e', 't'].is_prefix_of(l)
}

/// The name on a header line: everything after `snippet` and one separator
/// character, empty when the line is no longer than that.
pub open spec fn header_name(l: Seq<char>) -> Seq<char> {
    if l.len() >= 8 {
        l.skip(8)
    } else {
        Seq::empty()
    }
}

/// A body line: it starts with a tab (such a line cannot be a `#` comment).
pub open spec fn is_body_line(l: Seq<char>) -> bool {
    l.len() > 0 && l[0] == '\t'
}

/// The body-line test as a value.
pub open spec fn body_line_fn() -> spec_fn(Seq<char>) -> bool {
    |l: Seq<char>| is_body_line(l)
}

/// Lines joined with single newlines; no trailing newline.
pub open spec fn join_newline(ls: Seq<Seq<char>>) -> Seq<char>
    decreases ls.len(),
{
    if ls.len() == 0 {
        Seq::empty()
    } else if ls.len() == 1 {
        ls[0]
    } else {
        ls[0] + seq!['\n'] + join_newline(ls.drop_first())
    }
}

/// Joining one more line appends a newline and that line.
proof fn lemma_join_newline_push(ls: Seq<Seq<char>>, x: Seq<char>)
    ensures
        join_newline(ls.push(x)) == if ls.len() == 0 {
            x
        } else {
            join_newline(ls) + seq!['\n'] + x
        },
    decreases ls.len(),
{
    if ls.len() == 0 {
        assert(ls.push(x).len() == 1);
        assert(ls.push(x)[0] == x);
    } else {
        assert(ls.push(x)[0] == ls[0]);
        assert(ls.push(x).drop_first() =~= ls.drop_first().push(x));
        lemma_join_newline_push(ls.drop_first(), x);
        if ls.len() == 1 {
            assert(join_newline(ls) == ls[0]);
        } else {
            assert(ls[0] + seq!['\n'] + (join_newline(ls.drop_first()) + seq!['\n'] + x) =~= (
            ls[0] + seq!['\n'] + join_newline(ls.drop_first())) + seq!['\n'] + x);
        }
    }
}

/// Join the given lines with single newlines.
fn join_with_newlines(parts: &Vec<String>) -> (r: String)
    ensures
        r@ == join_newline(parts.deep_view()),
{
    let ghost dv = parts.deep_view();
    let n = parts.len();
    if n == 0 {
        return String::new();
    }
    let mut r = parts[0].clone();
    assert(dv.take(1) =~= seq![dv[0]]);
    assert(join_newline(dv.take(1)) == dv[0]);
    let mut k: usize = 1;
    while k < n
        invariant
            dv == parts.deep_view(),
            1 <= k <= n,
            n == parts@.len(),
            r@ == join_newline(dv.take(k as int)),
        decreases n - k,
    {
        r.append("\n");
        r.append(parts[k].as_str());
        proof {
            reveal_strlit("\n");
            assert(dv.take(k + 1) =~= dv.take(k as int).push(dv[k as int]));
            lemma_join_newline_push(dv.take(k as int), dv[k as int]);
            assert("\n"@ =~= seq!['\n']);
        }
        k = k + 1;
    }
    assert(dv.take(n as int) =~= dv);
    r
}

/// How many leading lines are not headers.
pub open spec fn non_header_len(ls: Seq<Seq<char>>) -> nat
    decreases ls.len(),
{
    if ls.len() > 0 && !is_snippet_header(ls[0]) {
        (non_header_len(ls.drop_first()) + 1) as nat
    } else {
        0
    }
}

proof fn lemma_non_header_len_le(ls: Seq<Seq<char>>)
    ensures
        non_header_len(ls) <= ls.len(),
    decreases ls.len(),
{
    if ls.len() > 0 && !is_snippet_header(ls[0]) {
        lemma_non_header_len_le(ls.drop_first());
    }
}

proof fn lemma_non_header_len_is(ls: Seq<Seq<char>>, m: int)
    requires
        0 <= m <= ls.len(),
        forall|i: int| 0 <= i < m ==> !is_snippet_header(#[trigger] ls[i]),
        m == ls.len() || is_snippet_header(ls[m]),
    ensures
        non_header_len(ls) == m,
    decreases m,
{
    if m == 0 {
    } else {
        assert(!is_snippet_header(ls[0]));
        assert(forall|i: int| 0 <= i < m - 1 ==> #[trigger] ls.drop_first()[i] == ls[i + 1]);
        if m < ls.len() {
            assert(ls.drop_first()[m - 1] == ls[m]);
        }
        lemma_non_header_len_is(ls.drop_first(), m - 1);
    }
}

/// The snippets held by the given lines: each header opens one, named by the
/// rest of the header line, whose body is its following tab-indented lines
/// up to the next header, cleaned and joined with newlines.
pub open spec fn parse_snippet_lines(ls: Seq<Seq<char>>) -> Seq<(Seq<char>, Seq<char>)>
    decreases ls.len(),
    via parse_snippet_lines_decreases
{
    if ls.len() == 0 {
        Seq::empty()
    } else if !is_snippet_header(ls[0]) {
        parse_snippet_lines(ls.drop_first())
    } else {
        let m = non_header_len(ls.drop_first()) as int;
        seq![
            (
                header_name(ls[0]),
                join_newline(
                    ls.subrange(1, 1 + m).filter(body_line_fn()).map_values(transform_line_fn()),
                ),
            ),
        ] + parse_snippet_lines(ls.skip(1 + m))
    }
}

#[via_fn]
proof fn parse_snippet_lines_decreases(ls: Seq<Seq<char>>) {
    if ls.len() > 0 && is_snippet_header(ls[0]) {
        lemma_non_header_len_le(ls.drop_first());
    }
}

/// A non-header line opens nothing.
proof fn lemma_parse_skip_non_header(ls: Seq<Seq<char>>, i: int)
    requires
        0 <= i < ls.len(),
        !is_snippet_header(ls[i]),
    ensures
        parse_snippet_lines(ls.skip(i)) == parse_snippet_lines(ls.skip(i + 1)),
{
    assert(ls.skip(i)[0] == ls[i]);
    assert(ls.skip(i).drop_first() =~= ls.skip(i + 1));
}

/// A header at `i` whose body runs to `j` contributes one snippet, and
/// parsing continues at `j`.
proof fn lemma_parse_step(ls: Seq<Seq<char>>, i: int, j: int)
    requires
        0 <= i < j <= ls.len(),
        is_snippet_header(ls[i]),
        forall|k: int| i < k < j ==> !is_snippet_header(#[trigger] ls[k]),
        j == ls.len() || is_snippet_header(ls[j]),
    ensures
        parse_snippet_lines(ls.skip(i)) == seq![
            (
                header_name(ls[i]),
                join_newline(
                    ls.subrange(i + 1, j).filter(body_line_fn()).map_values(transform_line_fn()),
                ),
            ),
        ] + parse_snippet_lines(ls.skip(j)),
{
    let t = ls.skip(i);
    assert(forall|k: int| 0 <= k < t.len() ==> #[trigger] t[k] == ls[k + i]);
    assert(t[0] == ls[i]);
    assert(t.drop_first() =~= ls.skip(i + 1));
    assert(forall|k: int| 0 <= k < ls.skip(i + 1).len() ==> #[trigger] ls.skip(i + 1)[k] == ls[k
        + i + 1]);
    assert forall|k: int| 0 <= k < j - i - 1 implies !is_snippet_header(
        #[trigger] ls.skip(i + 1)[k],
    ) by {
        assert(ls.skip(i + 1)[k] == ls[k + i + 1]);
    }
    if j < ls.len() {
        assert(ls.skip(i + 1)[j - i - 1] == ls[j]);
    }
    lemma_non_header_len_is(ls.skip(i + 1), j - i - 1);
    assert(non_header_len(t.drop_first()) == j - i - 1);
    assert(t.subrange(1, j - i) =~= ls.subrange(i + 1, j));
    assert(t.skip(j - i) =~= ls.skip(j));
}

/// Whether `l` starts with the word `snippet`.
fn line_is_header(l: &String) -> (r: bool)
    ensures
        r == is_snippet_header(l@),
{
    let cs = str_chars(l.as_str());
    let ghost hdr = seq!['s', 'n', 'i', 'p', 'p', 'e', 't'];
    if cs.len() < 7 {
        assert(!is_snippet_header(l@));
        return false;
    }
    let r = cs[0] == 's' && cs[1] == 'n' && cs[2] == 'i' && cs[3] == 'p' && cs[4] == 'p' && cs[5]
        == 'e' && cs[6] == 't';
    proof {
        if r {
            assert(hdr =~= l@.subrange(0, 7));
        } else {
            if is_snippet_header(l@) {
                assert(hdr =~= l@.subrange(0, 7));
                assert(forall|k: int| 0 <= k < 7 ==> hdr[k] == #[trigger] l@.subrange(0, 7)[k]);
                assert(false);
            }
        }
    }
    r
}

/// The name on the header line `l`.
fn line_header_name(l: &String) -> (r: String)
    ensures
        r@ == header_name(l@),
{
    let cs = str_chars(l.as_str());
    let n = cs.len();
    if n < 8 {
        return String::new();
    }
    let mut out: Vec<char> = Vec::new();
    let mut k: usize = 8;
    while k < n
        invariant
            8 <= k <= n,
            n == l@.len(),
            cs@ == l@,
            out@ == l@.subrange(8, k as int),
        decreases n - k,
    {
        out.push(cs[k]);
        assert(out@ =~= l@.subrange(8, k + 1));
        k = k + 1;
    }
    assert(out@ =~= l@.skip(8));
    chars_to_string(&out)
}

/// Whether `l` is a body line: it starts with a tab.
fn line_is_body(l: &String) -> (r: bool)
    ensures
        r == is_body_line(l@),
{
    let cs = str_chars(l.as_str());
    cs.len() > 0 && cs[0] == '\t'
}

/// Parse the snippets of a snippet file: one per `snippet` header, with the
/// cleaned tab-indented lines below it as body and `filetype` attached.
pub fn parse_snippets(content: &str, filetype: &str) -> (r: Vec<Snippet>)
    ensures
        r@.len() == parse_snippet_lines(split_lines(content@)).len(),
        forall|k: int| #![trigger r@[k]]
            0 <= k < r@.len() ==> r@[k].name@ == parse_snippet_lines(split_lines(content@))[k].0
                && r@[k].snippet@ == parse_snippet_lines(split_lines(content@))[k].1
                && r@[k].filetype@ == filetype@,
{
    let lines = split_to_lines(content);
    let ghost ls = split_lines(content@);
    assert(lines.deep_view() == ls);
    let n = lines.len();
    let mut out: Vec<Snippet> = Vec::new();
    let ghost mut done: Seq<(Seq<char>, Seq<char>)> = Seq::empty();
    let mut i: usize = 0;
    assert(ls.skip(0) =~= ls);
    while i < n
        invariant
            ls == split_lines(content@),
            lines.deep_view() == ls,
            i <= n,
            n == lines@.len(),
            parse_snippet_lines(ls) == done + parse_snippet_lines(ls.skip(i as int)),
            out@.len() == done.len(),
            forall|k: int| #![trigger out@[k]]
                0 <= k < out@.len() ==> out@[k].name@ == done[k].0 && out@[k].snippet@ == done[k].1
                    && out@[k].filetype@ == filetype@,
        decreases n - i,
    {
        if !line_is_header(&lines[i]) {
            proof {
                assert(lines@[i as int]@ == ls[i as int]);
                lemma_parse_skip_non_header(ls, i as int);
            }
            i = i + 1;
        } else {
            assert(lines@[i as int]@ == ls[i as int]);
            let name = line_header_name(&lines[i]);
            let mut parts: Vec<String> = Vec::new();
            let mut j = i + 1;
            assert(ls.subrange(i as int + 1, i as int + 1) =~= Seq::<Seq<char>>::empty());
            assert(Seq::<Seq<char>>::empty().filter(body_line_fn()) =~= Seq::<Seq<char>>::empty())
                by {
                reveal_with_fuel(Seq::filter, 1);
            }
            assert(parts.deep_view() =~= Seq::<Seq<char>>::empty().map_values(
                transform_line_fn(),
            ));
            while j < n && !line_is_header(&lines[j])
                invariant
                    ls == split_lines(content@),
                    lines.deep_view() == ls,
                    i < j <= n,
                    n == lines@.len(),
                    forall|k: int| i < k < j ==> !is_snippet_header(#[trigger] ls[k]),
                    parts.deep_view() == ls.subrange(i as int + 1, j as int).filter(
                        body_line_fn(),
                    ).map_values(transform_line_fn()),
                decreases n - j,
            {
                assert(lines@[j as int]@ == ls[j as int]);
                let ghost seg = ls.subrange(i as int + 1, j as int);
                let ghost sel0 = seg.filter(body_line_fn());
                proof {
                    assert(ls.subrange(i as int + 1, j + 1) =~= seg.push(ls[j as int]));
                    assert(seg.push(ls[j as int]) =~= seg + seq![ls[j as int]]);
                    lemma_filter_push(seg, ls[j as int], body_line_fn());
                }
                if line_is_body(&lines[j]) {
                    let t = transform_line(lines[j].as_str());
                    let ghost dv0 = parts.deep_view();
                    parts.push(t);
                    proof {
                        assert(parts.deep_view() =~= dv0.push(spec_transform_line(ls[j as int])));
                        assert(sel0.push(ls[j as int]).map_values(transform_line_fn()) =~=
                        sel0.map_values(transform_line_fn()).push(
                            spec_transform_line(ls[j as int]),
                        ));
                    }
                } else {
                }
                j = j + 1;
            }
            assert(j == n || is_snippet_header(ls[j as int])) by {
                if j < n {
                    assert(lines@[j as int]@ == ls[j as int]);
                }
            }
            let body = join_with_newlines(&parts);
            let ft = filetype.to_owned();
            let ghost nm_v = name@;
            let ghost body_v = body@;
            let ghost out0 = out@;
            out.push(Snippet { name, snippet: body, filetype: ft });
            proof {
                lemma_parse_step(ls, i as int, j as int);
                let item = (header_name(ls[i as int]), join_newline(parts.deep_view()));
                let done0 = done;
                done = done.push(item);
                assert(done =~= done0 + seq![item]);
                assert((done0 + seq![item]) + parse_snippet_lines(ls.skip(j as int)) =~= done0 + (
                seq![item] + parse_snippet_lines(ls.skip(j as int))));
                assert(out@.len() == out0.len() + 1);
                assert(forall|k: int| 0 <= k < out0.len() ==> #[trigger] out@[k] == out0[k]);
                assert(out@[out0.len() as int].name@ == nm_v);
                assert(out@[out0.len() as int].snippet@ == body_v);
                assert(out@[out0.len() as int].filetype@ == filetype@);
            }
            i = j;
        }
    }
    assert(ls.skip(n as int) =~= Seq::<Seq<char>>::empty());
    assert(parse_snippet_lines(ls) =~= done);
    out
}

/// The filetype table: each filetype with the filename endings that select
/// it.
pub open spec fn patterns_spec() -> Seq<(Seq<char>, Seq<Seq<char>>)> {
    seq![
        ("c"@, seq![".c"@, ".h"@, ".cc"@, ".cpp"@]),
        ("cpp"@, seq![".cpp"@, ".cc"@, ".h"@, ".hpp"@]),
        ("cmake"@, seq![".cmake"@, "CMakeLists.txt"@]),
        ("dart"@, seq![".dart"@]),
        ("javascript"@, seq![".js"@, ".ts"@]),
        ("json"@, seq![".json"@]),
        ("kotlin"@, seq![".kt"@]),
        ("python"@, seq![".py"@, ".pyc"@]),
        ("rust"@, seq![".rs"@, ".rst"@]),
        ("sh"@, seq![".sh"@, ".zsh"@, ".bash"@]),
        ("zsh"@, seq![".sh"@, ".zsh"@]),
        ("clangformat"@, seq![".clang-format"@]),
        ("yapf"@, seq![".style.yapf"@]),
    ]
}

fn pattern_entry(name: &str, pats: &[&str]) -> (r: (String, Vec<String>))
    ensures
        r.0@ == name@,
        r.1.deep_view() == pats.deep_view(),
{
    let mut v: Vec<String> = Vec::new();
    let n = pats.len();
    let mut k: usize = 0;
    while k < n
        invariant
            k <= n,
            n == pats@.len(),
            v.deep_view() =~= pats.deep_view().take(k as int),
        decreases n - k,
    {
        let ghost dv0 = v.deep_view();
        v.push(pats[k].to_owned());
        assert(v.deep_view() =~= dv0.push(pats@[k as int]@));
        assert(v.deep_view() =~= pats.deep_view().take(k + 1));
        k = k + 1;
    }
    assert(pats.deep_view().take(n as int) =~= pats.deep_view());
    (name.to_owned(), v)
}

/// The filetype table as data: each filetype beside the filename endings
/// that select it.
pub fn snippet_patterns() -> (r: Vec<(String, Vec<String>)>)
    ensures
        r.deep_view() == patterns_spec(),
{
    let mut m: Vec<(String, Vec<String>)> = Vec::new();
    m.push(pattern_entry("c", &[".c", ".h", ".cc", ".cpp"]));
    m.push(pattern_entry("cpp", &[".cpp", ".cc", ".h", ".hpp"]));
    m.push(pattern_entry("cmake", &[".cmake", "CMakeLists.txt"]));
    m.push(pattern_entry("dart", &[".dart"]));
    m.push(pattern_entry("javascript", &[".js", ".ts"]));
    m.push(pattern_entry("json", &[".json"]));
    m.push(pattern_entry("kotlin", &[".kt"]));
    m.push(pattern_entry("python", &[".py", ".pyc"]));
    m.push(pattern_entry("rust", &[".rs", ".rst"]));
    m.push(pattern_entry("sh", &[".sh", ".zsh", ".bash"]));
    m.push(pattern_entry("zsh", &[".sh", ".zsh"]));
    m.push(pattern_entry("clangformat", &[".clang-format"]));
    m.push(pattern_entry("yapf", &[".style.yapf"]));
    assert(m.deep_view() =~~= patterns_spec());
    m
}

/// Whether some ending in `pats` closes `uri`.
pub open spec fn entry_matches(pats: Seq<Seq<char>>, uri: Seq<char>) -> bool {
    exists|k: int| 0 <= k < pats.len() && (#[trigger] pats[k]).is_suffix_of(uri)
}

/// The names of the table entries that match `uri`, in table order.
pub open spec fn matching_names(table: Seq<(Seq<char>, Seq<Seq<char>>)>, uri: Seq<char>) -> Seq<
    Seq<char>,
>
    decreases table.len(),
{
    if table.len() == 0 {
        Seq::empty()
    } else {
        (if entry_matches(table[0].1, uri) {
            seq![table[0].0]
        } else {
            Seq::empty()
        }) + matching_names(table.drop_first(), uri)
    }
}

proof fn lemma_matching_names_push(
    table: Seq<(Seq<char>, Seq<Seq<char>>)>,
    e: (Seq<char>, Seq<Seq<char>>),
    uri: Seq<char>,
)
    ensures
        matching_names(table.push(e), uri) == matching_names(table, uri) + (if entry_matches(
            e.1,
            uri,
        ) {
            seq![e.0]
        } else {
            Seq::<Seq<char>>::empty()
        }),
    decreases table.len(),
{
    if table.len() == 0 {
        assert(table.push(e).len() == 1);
        assert(table.push(e)[0] == e);
        assert(table.push(e).drop_first() =~= Seq::<(Seq<char>, Seq<Seq<char>>)>::empty());
        assert(matching_names(Seq::<(Seq<char>, Seq<Seq<char>>)>::empty(), uri)
            == Seq::<Seq<char>>::empty());
        assert(matching_names(table.push(e), uri) =~= matching_names(table, uri) + (
        if entry_matches(e.1, uri) {
            seq![e.0]
        } else {
            Seq::<Seq<char>>::empty()
        }));
    } else {
        assert(table.push(e)[0] == table[0]);
        assert(table.push(e).drop_first() =~= table.drop_first().push(e));
        lemma_matching_names_push(table.drop_first(), e, uri);
        let h = if entry_matches(table[0].1, uri) {
            seq![table[0].0]
        } else {
            Seq::<Seq<char>>::empty()
        };
        let t = if entry_matches(e.1, uri) {
            seq![e.0]
        } else {
            Seq::<Seq<char>>::empty()
        };
        assert(h + (matching_names(table.drop_first(), uri) + t) =~= (h + matching_names(
            table.drop_first(),
            uri,
        )) + t);
    }
}

/// Whether the characters of `pat` close the characters `s`.
fn chars_ends_with(s: &Vec<char>, pat: &String) -> (r: bool)
    ensures
        r == pat@.is_suffix_of(s@),
{
    let pc = str_chars(pat.as_str());
    let m = pc.len();
    let n = s.len();
    if m > n {
        return false;
    }
    let ghost tail = s@.subrange(n - m as int, n as int);
    let mut k: usize = 0;
    while k < m
        invariant
            tail == s@.subrange(n - m as int, n as int),
            k <= m <= n,
            m == pat@.len(),
            n == s@.len(),
            pc@ == pat@,
            forall|j: int| 0 <= j < k ==> pat@[j] == #[trigger] tail[j],
        decreases m - k,
    {
        assert(tail[k as int] == s@[n - m + k]);
        if pc[k] != s[n - m + k] {
            proof {
                if pat@.is_suffix_of(s@) {
                    assert(pat@[k as int] == tail[k as int]);
                }
            }
            return false;
        }
        k = k + 1;
    }
    assert(pat@ =~= tail);
    true
}

/// Whether some ending in `pats` closes the characters `uri`.
fn any_suffix(pats: &Vec<String>, uri: &Vec<char>) -> (r: bool)
    ensures
        r == entry_matches(pats.deep_view(), uri@),
{
    let n = pats.len();
    let mut k: usize = 0;
    while k < n
        invariant
            k <= n,
            n == pats@.len(),
            forall|j: int| 0 <= j < k ==> !(#[trigger] pats.deep_view()[j]).is_suffix_of(uri@),
        decreases n - k,
    {
        if chars_ends_with(uri, &pats[k]) {
            assert(pats.deep_view()[k as int].is_suffix_of(uri@));
            return true;
        }
        k = k + 1;
    }
    false
}

/// The filetypes whose endings match `file_uri`, in table order.
pub fn get_snippet_names(file_uri: &str) -> (r: Vec<String>)
    ensures
        r.deep_view() == matching_names(patterns_spec(), file_uri@),
{
    let table = snippet_patterns();
    let uri = str_chars(file_uri);
    let ghost tdv = table.deep_view();
    let n = table.len();
    let mut out: Vec<String> = Vec::new();
    let mut i: usize = 0;
    assert(tdv.take(0) =~= Seq::<(Seq<char>, Seq<Seq<char>>)>::empty());
    while i < n
        invariant
            tdv == patterns_spec(),
            table.deep_view() == tdv,
            uri@ == file_uri@,
            i <= n,
            n == table@.len(),
            out.deep_view() == matching_names(tdv.take(i as int), file_uri@),
        decreases n - i,
    {
        let ghost e = tdv[i as int];
        assert(table@[i as int].0@ == e.0 && table@[i as int].1.deep_view() == e.1);
        proof {
            assert(tdv.take(i + 1) =~= tdv.take(i as int).push(e));
            lemma_matching_names_push(tdv.take(i as int), e, file_uri@);
        }
        if any_suffix(&table[i].1, &uri) {
            let ghost dv0 = out.deep_view();
            out.push(table[i].0.clone());
            assert(out.deep_view() =~= dv0.push(e.0));
            assert(out.deep_view() =~= matching_names(tdv.take(i as int), file_uri@) + seq![e.0]);
        } else {
            assert(out.deep_view() =~= matching_names(tdv.take(i as int), file_uri@)
                + Seq::<Seq<char>>::empty());
        }
        i = i + 1;
    }
    assert(tdv.take(n as int) =~= tdv);
    out
}

/// The last `/`-separated segment of a path, up to its first dot.
pub open spec fn spec_file_basename(path: Seq<char>) -> Seq<char> {
    let f = split_on(path, '/').last();
    f.take(run_len(f, not_char_fn('.')) as int)
}

/// Splitting never yields an empty list of segments.
proof fn lemma_split_on_nonempty(s: Seq<char>, sep: char)
    ensures
        split_on(s, sep).len() >= 1,
{
    let r = run_len(s, not_char_fn(sep)) as int;
    if r == s.len() {
    } else {
    }
}

/// When `[j, len)` has no separator and `j` follows a separator (or is the
/// start), the last segment is `[j, len)`.
proof fn lemma_split_on_last(s: Seq<char>, sep: char, j: int)
    requires
        0 <= j <= s.len(),
        j == 0 || s[j - 1] == sep,
        forall|k: int| j <= k < s.len() ==> (#[trigger] s[k]) != sep,
    ensures
        split_on(s, sep).last() == s.subrange(j, s.len() as int),
    decreases s.len(),
{
    let r = run_len(s, not_char_fn(sep)) as int;
    lemma_run_len_le(s, not_char_fn(sep));
    if r == s.len() {
        assert(j == 0) by {
            if j > 0 {
                assert(not_char_fn(sep)(s[j - 1])) by {
                    lemma_run_len_is_all(s, sep);
                }
            }
        }
        assert(s.subrange(0, s.len() as int) =~= s);
    } else {
        lemma_run_len_stops(s, sep);
        assert(s[r] == sep);
        assert(j >= r + 1) by {
            if j <= r {
                assert(s[r] != sep);
            }
        }
        let t = s.skip(r + 1);
        assert(forall|k: int| 0 <= k < t.len() ==> #[trigger] t[k] == s[k + r + 1]);
        assert forall|k: int| j - r - 1 <= k < t.len() implies (#[trigger] t[k]) != sep by {
            assert(t[k] == s[k + r + 1]);
        }
        if j - r - 1 > 0 {
            assert(t[j - r - 2] == s[j - 1]);
        }
        lemma_split_on_last(t, sep, j - r - 1);
        lemma_split_on_nonempty(t, sep);
        assert(split_on(s, sep).last() == split_on(t, sep).last());
        assert(t.subrange(j - r - 1, t.len() as int) =~= s.subrange(j, s.len() as int));
    }
}

/// Inside the initial separator-free run, every character differs from the
/// separator.
proof fn lemma_run_len_is_all(s: Seq<char>, sep: char)
    ensures
        forall|k: int|
            0 <= k < run_len(s, not_char_fn(sep)) ==> not_char_fn(sep)(#[trigger] s[k]),
    decreases s.len(),
{
    lemma_run_len_le(s, not_char_fn(sep));
    if s.len() > 0 && not_char_fn(sep)(s[0]) {
        lemma_run_len_le(s.drop_first(), not_char_fn(sep));
        lemma_run_len_is_all(s.drop_first(), sep);
        assert forall|k: int|
            0 <= k < run_len(s, not_char_fn(sep)) implies not_char_fn(sep)(#[trigger] s[k]) by {
            if k >= 1 {
                assert(0 <= k - 1 < run_len(s.drop_first(), not_char_fn(sep)));
                assert(s.drop_first()[k - 1] == s[k]);
            }
        }
    }
}

/// The initial separator-free run stops at a separator when it stops early.
proof fn lemma_run_len_stops(s: Seq<char>, sep: char)
    requires
        run_len(s, not_char_fn(sep)) < s.len(),
    ensures
        s[run_len(s, not_char_fn(sep)) as int] == sep,
    decreases s.len(),
{
    lemma_run_len_le(s, not_char_fn(sep));
    if s.len() > 0 && not_char_fn(sep)(s[0]) {
        lemma_run_len_le(s.drop_first(), not_char_fn(sep));
        lemma_run_len_stops(s.drop_first(), sep);
        assert(s.drop_first()[run_len(s.drop_first(), not_char_fn(sep)) as int] == s[run_len(
            s,
            not_char_fn(sep),
        ) as int]);
    } else {
        assert(!not_char_fn(sep)(s[0]));
    }
}

/// The filename part of `path`: what follows the last slash, cut before its
/// first dot.
pub fn get_file_basename(path: String) -> (r: String)
    ensures
        r@ == spec_file_basename(path@),
{
    let cs = str_chars(path.as_str());
    let n = cs.len();
    let mut start: usize = 0;
    let mut k: usize = 0;
    while k < n
        invariant
            start <= k <= n,
            n == path@.len(),
            cs@ == path@,
            forall|j: int| start <= j < k ==> (#[trigger] path@[j]) != '/',
            start == 0 || path@[start - 1] == '/',
        decreases n - k,
    {
        if cs[k] == '/' {
            start = k + 1;
        }
        k = k + 1;
    }
    proof {
        lemma_split_on_last(path@, '/', start as int);
    }
    let ghost f = path@.subrange(start as int, n as int);
    let mut e = start;
    while e < n && cs[e] != '.'
        invariant
            start <= e <= n,
            n == path@.len(),
            cs@ == path@,
            forall|j: int| start <= j < e ==> (#[trigger] path@[j]) != '.',
        decreases n - e,
    {
        e = e + 1;
    }
    proof {
        assert(forall|k2: int| 0 <= k2 < f.len() ==> #[trigger] f[k2] == path@[k2 + start]);
        assert forall|k2: int| 0 <= k2 < e - start implies not_char_fn('.')(#[trigger] f[k2]) by {
            assert(f[k2] == path@[k2 + start]);
        }
        if e < n {
            assert(!not_char_fn('.')(f[e - start]));
        }
        lemma_run_len_is(f, not_char_fn('.'), e - start as int);
    }
    let mut out: Vec<char> = Vec::new();
    let mut m = start;
    while m < e
        invariant
            start <= m <= e <= n,
            n == path@.len(),
            cs@ == path@,
            out@ == path@.subrange(start as int, m as int),
        decreases e - m,
    {
        out.push(cs[m]);
        assert(out@ =~= path@.subrange(start as int, m + 1));
        m = m + 1;
    }
    assert(out@ =~= f.take(e - start as int));
    chars_to_string(&out)
}

/// `p` occurs inside `s` as a contiguous substring.
pub open spec fn contains_sub(s: Seq<char>, p: Seq<char>) -> bool {
    exists|i: int| 0 <= i <= s.len() - p.len() && p.is_prefix_of(s.skip(i))
}

/// Naive substring search: whether `pat` occurs inside `s`.
fn contains_substring(s: &Vec<char>, pat: &Vec<char>) -> (r: bool)
    ensures
        r == contains_sub(s@, pat@),
{
    let n = s.len();
    let m = pat.len();
    if m > n {
        proof {
            if contains_sub(s@, pat@) {
                let i = choose|i: int| 0 <= i <= s@.len() - pat@.len() && pat@.is_prefix_of(
                    s@.skip(i),
                );
            }
        }
        return false;
    }
    let mut i: usize = 0;
    while i <= n - m
        invariant
            m <= n,
            n == s@.len(),
            m == pat@.len(),
            i <= n - m + 1,
            forall|j: int| 0 <= j < i ==> !pat@.is_prefix_of(#[trigger] s@.skip(j)),
        decreases n - m + 1 - i,
    {
        let mut k: usize = 0;
        let mut matched = true;
        while k < m
            invariant
                i + m <= n,
                n == s@.len(),
                m == pat@.len(),
                k <= m,
                matched ==> (forall|t: int| 0 <= t < k ==> pat@[t] == #[trigger] s@[i + t]),
                !matched ==> !pat@.is_prefix_of(s@.skip(i as int)),
            decreases m - k,
        {
            if pat[k] != s[i + k] {
                proof {
                    if pat@.is_prefix_of(s@.skip(i as int)) {
                        assert(pat@ =~= s@.skip(i as int).subrange(0, m as int));
                        assert(pat@[k as int] == s@.skip(i as int)[k as int]);
                        assert(s@.skip(i as int)[k as int] == s@[i + k]);
                    }
                }
                matched = false;
                k = m;
            } else {
                assert(pat@[k as int] == s@[i + k]);
                k = k + 1;
            }
        }
        if matched {
            proof {
                assert forall|t: int| 0 <= t < m implies pat@[t] == #[trigger] s@.skip(
                    i as int,
                )[t] by {
                    assert(s@.skip(i as int)[t] == s@[i + t]);
                }
                assert(pat@ =~= s@.skip(i as int).subrange(0, m as int));
                assert(pat@.is_prefix_of(s@.skip(i as int)));
            }
            return true;
        }
        i = i + 1;
    }
    proof {
        if contains_sub(s@, pat@) {
            let j = choose|j: int| 0 <= j <= s@.len() - pat@.len() && pat@.is_prefix_of(
                s@.skip(j),
            );
        }
    }
    false
}

/// The snippet-name test for a completion prefix, as a value.
pub open spec fn snip_pred(prefix: Seq<char>) -> spec_fn(Snippet) -> bool {
    |s: Snippet| contains_sub(s.name@, prefix)
}

/// The snippet group stored under the first pair whose key is `key`.
pub open spec fn store_get(store: Seq<(String, Vec<Snippet>)>, key: Seq<char>) -> Option<
    Seq<Snippet>,
>
    decreases store.len(),
{
    if store.len() == 0 {
        None
    } else if store[0].0@ == key {
        Some(store[0].1@)
    } else {
        store_get(store.drop_first(), key)
    }
}

proof fn lemma_store_get_none(store: Seq<(String, Vec<Snippet>)>, key: Seq<char>)
    ensures
        store_get(store, key) is None <==> (forall|j: int|
            0 <= j < store.len() ==> (#[trigger] store[j]).0@ != key),
    decreases store.len(),
{
    if store.len() > 0 {
        lemma_store_get_none(store.drop_first(), key);
        if store_get(store, key) is None {
            assert forall|j: int| 0 <= j < store.len() implies (#[trigger] store[j]).0@ != key by {
                if j >= 1 {
                    assert(store.drop_first()[j - 1] == store[j]);
                }
            }
        } else {
            if store[0].0@ != key {
                let j = choose|j: int|
                    0 <= j < store.drop_first().len() && (#[trigger] store.drop_first()[j]).0@
                        == key;
                assert(store[j + 1] == store.drop_first()[j]);
            }
        }
    }
}

proof fn lemma_store_get_at(store: Seq<(String, Vec<Snippet>)>, key: Seq<char>, i: int)
    requires
        0 <= i < store.len(),
        store[i].0@ == key,
        forall|j: int| 0 <= j < i ==> (#[trigger] store[j]).0@ != key,
    ensures
        store_get(store, key) == Some(store[i].1@),
    decreases i,
{
    if i > 0 {
        assert(forall|j: int|
            0 <= j < i - 1 ==> #[trigger] store.drop_first()[j] == store[j + 1]);
        lemma_store_get_at(store.drop_first(), key, i - 1);
    }
}

/// The snippets suggested for a file and prefix: for each matching filetype
/// name in order, the stored group's snippets whose names hold the prefix.
pub open spec fn spec_suggest_snippets(
    store: Seq<(String, Vec<Snippet>)>,
    names: Seq<Seq<char>>,
    prefix: Seq<char>,
) -> Seq<Snippet>
    decreases names.len(),
{
    if names.len() == 0 {
        Seq::empty()
    } else {
        (match store_get(store, names[0]) {
            Some(group) => group.filter(snip_pred(prefix)),
            None => Seq::empty(),
        }) + spec_suggest_snippets(store, names.drop_first(), prefix)
    }
}

proof fn lemma_spec_suggest_push(
    store: Seq<(String, Vec<Snippet>)>,
    names: Seq<Seq<char>>,
    nm: Seq<char>,
    prefix: Seq<char>,
)
    ensures
        spec_suggest_snippets(store, names.push(nm), prefix) == spec_suggest_snippets(
            store,
            names,
            prefix,
        ) + (match store_get(store, nm) {
            Some(group) => group.filter(snip_pred(prefix)),
            None => Seq::<Snippet>::empty(),
        }),
    decreases names.len(),
{
    let chunk = match store_get(store, nm) {
        Some(group) => group.filter(snip_pred(prefix)),
        None => Seq::<Snippet>::empty(),
    };
    if names.len() == 0 {
        assert(names.push(nm).len() == 1);
        assert(names.push(nm)[0] == nm);
        assert(names.push(nm).drop_first() =~= Seq::<Seq<char>>::empty());
        assert(spec_suggest_snippets(store, Seq::<Seq<char>>::empty(), prefix)
            == Seq::<Snippet>::empty());
        assert(spec_suggest_snippets(store, names.push(nm), prefix) == chunk
            + Seq::<Snippet>::empty());
        assert(chunk + Seq::<Snippet>::empty() =~= Seq::<Snippet>::empty() + chunk);
    } else {
        assert(names.push(nm)[0] == names[0]);
        assert(names.push(nm).drop_first() =~= names.drop_first().push(nm));
        lemma_spec_suggest_push(store, names.drop_first(), nm, prefix);
        let h = match store_get(store, names[0]) {
            Some(group) => group.filter(snip_pred(prefix)),
            None => Seq::<Snippet>::empty(),
        };
        assert(h + (spec_suggest_snippets(store, names.drop_first(), prefix) + chunk) =~= (h
            + spec_suggest_snippets(store, names.drop_first(), prefix)) + chunk);
    }
}

/// The snippets to offer for `file_uri` at `prefix`: from every snippet
/// group whose filetype matches the file, the snippets whose names hold the
/// prefix, in table order.
pub fn suggest_snippets(
    store: &Vec<(String, Vec<Snippet>)>,
    file_uri: &str,
    prefix: &str,
) -> (r: Vec<Snippet>)
    ensures
        ({
            let spec_r = spec_suggest_snippets(
                store@,
                matching_names(patterns_spec(), file_uri@),
                prefix@,
            );
            &&& r@.len() == spec_r.len()
            &&& (forall|k: int| #![trigger r@[k]]
                0 <= k < r@.len() ==> r@[k].name@ == spec_r[k].name@ && r@[k].snippet@
                    == spec_r[k].snippet@ && r@[k].filetype@ == spec_r[k].filetype@)
        }),
{
    let names = get_snippet_names(file_uri);
    let ghost nms = matching_names(patterns_spec(), file_uri@);
    assert(names.deep_view() == nms);
    let prefix_chars = str_chars(prefix);
    let n = names.len();
    let mut out: Vec<Snippet> = Vec::new();
    let ghost mut done: Seq<Snippet> = Seq::empty();
    let mut i: usize = 0;
    assert(nms.take(0) =~= Seq::<Seq<char>>::empty());
    while i < n
        invariant
            nms == matching_names(patterns_spec(), file_uri@),
            names.deep_view() == nms,
            prefix_chars@ == prefix@,
            i <= n,
            n == names@.len(),
            done == spec_suggest_snippets(store@, nms.take(i as int), prefix@),
            out@.len() == done.len(),
            forall|k: int| #![trigger out@[k]]
                0 <= k < out@.len() ==> out@[k].name@ == done[k].name@ && out@[k].snippet@
                    == done[k].snippet@ && out@[k].filetype@ == done[k].filetype@,
        decreases n - i,
    {
        let ghost nm = nms[i as int];
        assert(names@[i as int]@ == nm);
        proof {
            assert(nms.take(i + 1) =~= nms.take(i as int).push(nm));
            lemma_spec_suggest_push(store@, nms.take(i as int), nm, prefix@);
        }
        // look the name up in the store
        let sn = store.len();
        let mut si: usize = 0;
        let mut found = false;
        while si < sn && !found
            invariant
                sn == store@.len(),
                si <= sn,
                found ==> si < sn && store@[si as int].0@ == nm && store_get(store@, nm) == Some(
                    store@[si as int].1@,
                ),
                !found ==> (forall|j: int| 0 <= j < si ==> (#[trigger] store@[j]).0@ != nm),
                names.deep_view() == nms,
                names@[i as int]@ == nm,
                i < n == names@.len(),
            decreases sn - si, 1int - (if found { 1int } else { 0int }),
        {
            if store[si].0 == names[i] {
                proof {
                    lemma_store_get_at(store@, nm, si as int);
                }
                found = true;
            } else {
                si = si + 1;
            }
        }
        if found {
            let ghost group = store@[si as int].1@;
            let group_len = store[si].1.len();
            let mut g: usize = 0;
            assert(group.take(0) =~= Seq::<Snippet>::empty());
            assert(Seq::<Snippet>::empty().filter(snip_pred(prefix@)) =~= Seq::<Snippet>::empty())
                by {
                reveal_with_fuel(Seq::filter, 1);
            }
            let ghost done_in = done;
            while g < group_len
                invariant
                    sn == store@.len(),
                    si < sn,
                    group == store@[si as int].1@,
                    group_len == group.len(),
                    g <= group_len,
                    prefix_chars@ == prefix@,
                    done == done_in + group.take(g as int).filter(snip_pred(prefix@)),
                    out@.len() == done.len(),
                    forall|k: int| #![trigger out@[k]]
                        0 <= k < out@.len() ==> out@[k].name@ == done[k].name@ && out@[k].snippet@
                            == done[k].snippet@ && out@[k].filetype@ == done[k].filetype@,
                decreases group_len - g,
            {
                let ghost snip = group[g as int];
                proof {
                    assert(group.take(g + 1) =~= group.take(g as int).push(snip));
                    assert(group.take(g as int).push(snip) =~= group.take(g as int) + seq![snip]);
                    lemma_filter_push(group.take(g as int), snip, snip_pred(prefix@));
                }
                let name_chars = str_chars(store[si].1[g].name.as_str());
                if contains_substring(&name_chars, &prefix_chars) {
                    assert(snip_pred(prefix@)(snip));
                    let item = Snippet {
                        name: store[si].1[g].name.clone(),
                        snippet: store[si].1[g].snippet.clone(),
                        filetype: store[si].1[g].filetype.clone(),
                    };
                    let ghost out0 = out@;
                    out.push(item);
                    proof {
                        done = done.push(snip);
                        assert(done =~= done_in + group.take(g + 1).filter(snip_pred(prefix@)));
                        assert(forall|k: int|
                            0 <= k < out0.len() ==> #[trigger] out@[k] == out0[k]);
                        assert(out@[out0.len() as int].name@ == snip.name@);
                        assert(out@[out0.len() as int].snippet@ == snip.snippet@);
                        assert(out@[out0.len() as int].filetype@ == snip.filetype@);
                    }
                } else {
                    assert(!snip_pred(prefix@)(snip));
                }
                g = g + 1;
            }
            assert(group.take(group_len as int) =~= group);
        } else {
            proof {
                lemma_store_get_none(store@, nm);
                assert(store_get(store@, nm) is None);
                assert(done + Seq::<Snippet>::empty() =~= done);
            }
        }
        i = i + 1;
    }
    assert(nms.take(n as int) =~= nms);
    out
}

} // verus!
