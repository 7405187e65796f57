//! Path candidates for filename completion.
//!
//! When a line holds a path separator, every slice of the line that ends at
//! such a separator is a candidate directory to list, paired with the
//! separator's position so the caller can anchor its completions.  Listing
//! directories is filesystem work and stays with the caller.

use vstd::prelude::*;

verus! {

broadcast use vstd::string::group_string_axioms;

use crate::text::chars_to_string;
use crate::text::str_chars;

/// Lines longer than this are not probed for paths at all.
pub const MAX_LINE_LENGTH: usize = 600;

/// A path separator on a completion line.
pub open spec fn sep_char(c: char) -> bool {
    c == '/' || c == '\\'
}

/// The candidates anchored at position `j`: every slice of the line that
/// ends at `j` (a separator), shortest last, each paired with `j`.
pub open spec fn candidates_at(s: Seq<char>, j: int) -> Seq<(Seq<char>, int)> {
    Seq::new((j + 1) as nat, |i: int| (s.subrange(i, j + 1), j))
}

/// All candidates of the line from position `j0` on: for every separator
/// position, every slice ending there.
pub open spec fn candidates_from(s: Seq<char>, j0: int) -> Seq<(Seq<char>, int)>
    decreases s.len() - j0,
{
    if j0 < 0 || j0 >= s.len() {
        Seq::empty()
    } else if sep_char(s[j0]) {
        candidates_at(s, j0) + candidates_from(s, j0 + 1)
    } else {
        candidates_from(s, j0 + 1)
    }
}

/// The directory slices worth probing on a completion line, with their
/// anchor positions; a line over the length cap yields nothing.
pub open spec fn spec_path_prefixes(s: Seq<char>) -> Seq<(Seq<char>, int)> {
    if s.len() > MAX_LINE_LENGTH {
        Seq::empty()
    } else {
        candidates_from(s, 0)
    }
}

/// Every slice of `current_line` that ends at a path separator, paired with
/// the separator's position (in characters), in the order the separators
/// appear; longer slices first for one separator.  A line over the length
/// cap yields nothing.
pub fn path_prefixes(current_line: &str) -> (r: Vec<(String, usize)>)
    ensures
        r@.len() == spec_path_prefixes(current_line@).len(),
        forall|k: int| #![trigger r@[k]]
            0 <= k < r@.len() ==> r@[k].0@ == spec_path_prefixes(current_line@)[k].0 && r@[k].1
                as int == spec_path_prefixes(current_line@)[k].1,
{
    let s = str_chars(current_line);
    let n = s.len();
    let ghost whole = current_line@;
    if n > MAX_LINE_LENGTH {
        return Vec::new();
    }
    let mut out: Vec<(String, usize)> = Vec::new();
    let ghost mut done: Seq<(Seq<char>, int)> = Seq::empty();
    let mut j: usize = 0;
    while j < n
        invariant
            whole == current_line@,
            j <= n,
            n == whole.len(),
            s@ == whole,
            candidates_from(whole, 0) == done + candidates_from(whole, j as int),
            out@.len() == done.len(),
            forall|k: int| #![trigger out@[k]]
                0 <= k < out@.len() ==> out@[k].0@ == done[k].0 && out@[k].1 as int == done[k].1,
        decreases n - j,
    {
        let is_sep = s[j] == '/' || s[j] == '\\';
        if is_sep {
            let ghost here = candidates_at(whole, j as int);
            let mut i: usize = 0;
            while i <= j
                invariant
                    whole == current_line@,
                    i <= j + 1,
                    j < n,
                    n == whole.len(),
                    s@ == whole,
                    here == candidates_at(whole, j as int),
                    out@.len() == done.len() + i,
                    forall|k: int| #![trigger out@[k]]
                        0 <= k < done.len() ==> out@[k].0@ == done[k].0 && out@[k].1 as int
                            == done[k].1,
                    forall|k: int| #![trigger out@[k]]
                        done.len() <= k < out@.len() ==> out@[k].0@ == here[k - done.len()].0
                            && out@[k].1 as int == here[k - done.len()].1,
                decreases j + 1 - i,
            {
                let mut piece: Vec<char> = Vec::new();
                let mut m = i;
                while m <= j
                    invariant
                        i <= m <= j + 1,
                        j < n,
                        n == whole.len(),
                        s@ == whole,
                        piece@ == whole.subrange(i as int, m as int),
                    decreases j + 1 - m,
                {
                    piece.push(s[m]);
                    assert(piece@ =~= whole.subrange(i as int, m + 1));
                    m = m + 1;
                }
                out.push((chars_to_string(&piece), j));
                i = i + 1;
            }
            proof {
                let done0 = done;
                done = done + here;
                assert((done0 + here) + candidates_from(whole, j + 1) =~= done0 + (here
                    + candidates_from(whole, j + 1)));
            }
        }
        j = j + 1;
    }
    assert(candidates_from(whole, n as int) =~= Seq::<(Seq<char>, int)>::empty());
    assert(done + candidates_from(whole, n as int) =~= done);
    out
}

} // verus!
