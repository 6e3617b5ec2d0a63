//! Continuation-link pagination: extracting the next page's URL from a
//! `Link`-style response header.
//!
//! A header carries zero or more `<url>; rel="next"` entries.  The match
//! taken is the leftmost `<`, with the nearest close after it, the URL text
//! non-empty and free of newlines — and no entry at all means the last
//! page was reached.

use vstd::prelude::*;
use vstd::string::StrSliceExecFns;

verus! {

/// Does the close marker `>; rel="next"` stand at position `j` of `s`?
pub open spec fn close_at(s: Seq<char>, j: int) -> bool {
    &&& 0 <= j
    &&& j + 13 <= s.len()
    &&& s[j] == '>'
    &&& s[j + 1] == ';'
    &&& s[j + 2] == ' '
    &&& s[j + 3] == 'r'
    &&& s[j + 4] == 'e'
    &&& s[j + 5] == 'l'
    &&& s[j + 6] == '='
    &&& s[j + 7] == '"'
    &&& s[j + 8] == 'n'
    &&& s[j + 9] == 'e'
    &&& s[j + 10] == 'x'
    &&& s[j + 11] == 't'
    &&& s[j + 12] == '"'
}

/// The nearest close marker at or after `j`, scanning URL text as it goes:
/// a newline in the text ends the attempt.
pub open spec fn find_close(s: Seq<char>, j: int) -> Option<int>
    decreases s.len() - j,
{
    if j < 1 || j > s.len() {
        None
    } else if s[j - 1] == '\n' {
        None
    } else if close_at(s, j) {
        Some(j)
    } else if j == s.len() {
        None
    } else {
        find_close(s, j + 1)
    }
}

/// The URL of the leftmost-then-shortest `<url>; rel="next"` entry at or
/// after position `i` of `s`, if any.
pub open spec fn next_link_from(s: Seq<char>, i: int) -> Option<Seq<char>>
    decreases s.len() - i,
{
    if i < 0 || i >= s.len() {
        None
    } else if s[i] == '<' {
        match find_close(s, i + 2) {
            Some(j) => Some(s.subrange(i + 1, j)),
            None => next_link_from(s, i + 1),
        }
    } else {
        next_link_from(s, i + 1)
    }
}

/// The continuation URL a `Link` header carries, if any.
pub open spec fn next_link(s: Seq<char>) -> Option<Seq<char>> {
    next_link_from(s, 0)
}

/// Does the close marker stand at position `j`?
fn close_at_exec(s: &str, n: usize, j: usize) -> (r: bool)
    requires
        n == s@.len(),
        j <= n,
    ensures
        r == close_at(s@, j as int),
{
    if n - j < 13 {
        return false;
    }
    s.get_char(j) == '>' && s.get_char(j + 1) == ';' && s.get_char(j + 2) == ' ' && s.get_char(
        j + 3,
    ) == 'r' && s.get_char(j + 4) == 'e' && s.get_char(j + 5) == 'l' && s.get_char(j + 6) == '='
        && s.get_char(j + 7) == '"' && s.get_char(j + 8) == 'n' && s.get_char(j + 9) == 'e'
        && s.get_char(j + 10) == 'x' && s.get_char(j + 11) == 't' && s.get_char(j + 12) == '"'
}

/// The continuation URL in a `Link`-style header, if it carries a
/// `rel="next"` entry; `None` ends pagination.
pub fn get_next_link(link_header: &str) -> (r: Option<String>)
    ensures
        match r {
            Some(u) => next_link(link_header@) == Some(u@),
            None => next_link(link_header@) is None,
        },
{
    let n = link_header.unicode_len();
    let mut i: usize = 0;
    while i < n
        invariant
            n == link_header@.len(),
            i <= n,
            next_link(link_header@) == next_link_from(link_header@, i as int),
        decreases n - i,
    {
        if link_header.get_char(i) == '<' && n - i >= 2 {
            let mut j: usize = i + 2;
            let mut found: Option<usize> = None;
            loop
                invariant_except_break
                    found is None,
                invariant
                    n == link_header@.len(),
                    i + 2 <= j <= n,
                    find_close(link_header@, i + 2) == find_close(link_header@, j as int),
                ensures
                    match found {
                        Some(c) => find_close(link_header@, i + 2) == Some(c as int) && i + 2 <= c
                            <= n,
                        None => find_close(link_header@, i + 2) is None,
                    },
                decreases n - j,
            {
                if link_header.get_char(j - 1) == '\n' {
                    break ;
                }
                if close_at_exec(link_header, n, j) {
                    found = Some(j);
                    break ;
                }
                if j == n {
                    break ;
                }
                j += 1;
            }
            match found {
                Some(c) => {
                    let url = link_header.substring_char(i + 1, c).to_owned();
                    return Some(url);
                },
                None => {},
            }
        }
        i += 1;
    }
    None
}

} // verus!
