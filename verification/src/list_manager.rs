//! Filter titles and list reconciliation.
//!
//! A list whose title carries a filter expression is kept in sync with the
//! accounts that the expression selects.  The grammar of a title is: any
//! leading text up to and including the first `#`, then one or more terms
//! separated by runs of `&` (each run optionally surrounded by spaces).  A
//! term is either the literal `mutuals`, or `last_status_at>` followed by a
//! one-or-two-digit count (digits 1-9) and a unit character `d`, `w` or `m`
//! standing for 1, 7 or 30 days.

use vstd::prelude::*;
use vstd::string::StrSliceExecFns;

use crate::api_cache::{rel_lookup, ApiCache};
use crate::api_models::{Account, List, Relationship};
use crate::id_set::{
    ceil_div, chunk_ids, chunked, distinct_ids, flat, flat_ids, ids_view, lemma_filter_distinct,
    lemma_filter_membership, lemma_remove_distinct, IdSet,
};

verus! {

/// One parsed filter term: "latest status older than the given number of
/// days" or "mutual follow".
#[derive(Debug, Clone, Copy, PartialEq, Eq, Structural)]
pub enum ListManagerTerm {
    LastStatus(u64),
    Mutuals,
}

/// A parsed filter expression: the conjunction of its terms.
#[derive(Debug, Clone, PartialEq, Eq)]
pub struct ListManagerTerms(pub Vec<ListManagerTerm>);

impl View for ListManagerTerms {
    type V = Seq<ListManagerTerm>;

    open spec fn view(&self) -> Seq<ListManagerTerm> {
        self.0@
    }
}

/// A title that does not hold a well-formed filter expression.
#[derive(Debug, Clone, Copy, PartialEq, Eq, Structural)]
pub struct ParseError;

/// A digit as allowed in a duration count (code points of `1` to `9`).
pub open spec fn is_digit19(c: char) -> bool {
    49 <= c as u32 && c as u32 <= 57
}

/// The numeric value of a digit character.
pub open spec fn digit_val(c: char) -> int {
    c as u32 - 48
}

/// A duration unit character.
pub open spec fn is_unit(c: char) -> bool {
    c == 'd' || c == 'w' || c == 'm'
}

/// The number of days one unit stands for.
pub open spec fn unit_days(c: char) -> int {
    if c == 'd' {
        1
    } else if c == 'w' {
        7
    } else {
        30
    }
}

/// Does `t` begin with the literal `last_status_at>`?
pub open spec fn starts_with_last_status(t: Seq<char>) -> bool {
    &&& t.len() >= 15
    &&& t[0] == 'l'
    &&& t[1] == 'a'
    &&& t[2] == 's'
    &&& t[3] == 't'
    &&& t[4] == '_'
    &&& t[5] == 's'
    &&& t[6] == 't'
    &&& t[7] == 'a'
    &&& t[8] == 't'
    &&& t[9] == 'u'
    &&& t[10] == 's'
    &&& t[11] == '_'
    &&& t[12] == 'a'
    &&& t[13] == 't'
    &&& t[14] == '>'
}

/// Does `t` begin with the literal `mutuals`?
pub open spec fn starts_with_mutuals(t: Seq<char>) -> bool {
    &&& t.len() >= 7
    &&& t[0] == 'm'
    &&& t[1] == 'u'
    &&& t[2] == 't'
    &&& t[3] == 'u'
    &&& t[4] == 'a'
    &&& t[5] == 'l'
    &&& t[6] == 's'
}

/// Parse the duration that follows `last_status_at>` at offset 15 of `t`:
/// one or two digits (greedily two) and a unit.  Returns the term and the
/// total number of characters of `t` consumed.
pub open spec fn parse_duration(t: Seq<char>) -> Option<(ListManagerTerm, int)> {
    if t.len() >= 16 && is_digit19(t[15]) {
        if t.len() >= 17 && is_digit19(t[16]) {
            if t.len() >= 18 && is_unit(t[17]) {
                Some(
                    (
                        ListManagerTerm::LastStatus(
                            (((digit_val(t[15]) * 10 + digit_val(t[16])) * unit_days(
                                t[17],
                            )) as u64),
                        ),
                        18,
                    ),
                )
            } else {
                None
            }
        } else {
            if t.len() >= 17 && is_unit(t[16]) {
                Some(
                    (
                        ListManagerTerm::LastStatus(
                            ((digit_val(t[15]) * unit_days(t[16])) as u64),
                        ),
                        17,
                    ),
                )
            } else {
                None
            }
        }
    } else {
        None
    }
}

/// Parse one term at the front of `t`: the term and how many characters it
/// consumed.
pub open spec fn parse_term(t: Seq<char>) -> Option<(ListManagerTerm, int)> {
    if starts_with_last_status(t) {
        parse_duration(t)
    } else if starts_with_mutuals(t) {
        Some((ListManagerTerm::Mutuals, 7))
    } else {
        None
    }
}

/// How many consecutive occurrences of `ch` stand in `t` at and after
/// position `i`.
pub open spec fn count_char_from(t: Seq<char>, ch: char, i: int) -> int
    decreases t.len() - i,
{
    if i < 0 || i >= t.len() || t[i] != ch {
        0
    } else {
        1 + count_char_from(t, ch, i + 1)
    }
}

/// Parse an AND separator at the front of `t`: spaces, one or more `&`,
/// spaces.  Returns how many characters it consumed.
pub open spec fn parse_sep(t: Seq<char>) -> Option<int> {
    let a = count_char_from(t, ' ', 0);
    let b = count_char_from(t, '&', a);
    if b >= 1 {
        Some(a + b + count_char_from(t, ' ', a + b))
    } else {
        None
    }
}

/// Greedily parse `(separator term)*` at the front of `t`.  A separator
/// not followed by a term is left unconsumed.
pub open spec fn parse_terms_rest(t: Seq<char>) -> Seq<ListManagerTerm>
    decreases t.len(),
{
    match parse_sep(t) {
        None => Seq::empty(),
        Some(sc) => if 0 <= sc <= t.len() {
            match parse_term(t.skip(sc)) {
                None => Seq::empty(),
                Some((term, tc)) => if 0 < sc + tc <= t.len() {
                    seq![term] + parse_terms_rest(t.skip(sc + tc))
                } else {
                    seq![term]
                },
            }
        } else {
            Seq::empty()
        },
    }
}

/// Parse `term (separator term)*` at the front of `t`.  `None` means the
/// term list would be empty, which is not a filter expression.
pub open spec fn parse_terms(t: Seq<char>) -> Option<Seq<ListManagerTerm>> {
    match parse_term(t) {
        None => None,
        Some((term, tc)) => Some(
            seq![term] + if 0 <= tc <= t.len() {
                parse_terms_rest(t.skip(tc))
            } else {
                Seq::empty()
            },
        ),
    }
}

/// The position of the first `#` at or after position `i` of `s`.
pub open spec fn find_hash_from(s: Seq<char>, i: int) -> Option<int>
    decreases s.len() - i,
{
    if i < 0 || i >= s.len() {
        None
    } else if s[i] == '#' {
        Some(i)
    } else {
        find_hash_from(s, i + 1)
    }
}

/// The filter expression held in a title, if any: everything up to and
/// including the first `#` is ignored, and the terms follow.
pub open spec fn parse_title(s: Seq<char>) -> Option<Seq<ListManagerTerm>> {
    match find_hash_from(s, 0) {
        None => None,
        Some(h) => if 0 <= h < s.len() {
            parse_terms(s.skip(h + 1))
        } else {
            None
        },
    }
}

/// A parsed title holds at least one term.
pub proof fn lemma_parse_title_nonempty(s: Seq<char>)
    ensures
        parse_title(s) matches Some(ts) ==> ts.len() >= 1,
{
}

/// `last_status_at>` at the front of the suffix of `s` starting at `pos`?
fn check_last_status(s: &str, n: usize, pos: usize) -> (r: bool)
    requires
        n == s@.len(),
        pos <= n,
    ensures
        r == starts_with_last_status(s@.skip(pos as int)),
{
    if n - pos < 15 {
        return false;
    }
    let r = s.get_char(pos) == 'l' && s.get_char(pos + 1) == 'a' && s.get_char(pos + 2) == 's'
        && s.get_char(pos + 3) == 't' && s.get_char(pos + 4) == '_' && s.get_char(pos + 5) == 's'
        && s.get_char(pos + 6) == 't' && s.get_char(pos + 7) == 'a' && s.get_char(pos + 8) == 't'
        && s.get_char(pos + 9) == 'u' && s.get_char(pos + 10) == 's' && s.get_char(pos + 11) == '_'
        && s.get_char(pos + 12) == 'a' && s.get_char(pos + 13) == 't' && s.get_char(pos + 14)
        == '>';
    proof {
        let t = s@.skip(pos as int);
        assert(forall|k: int| 0 <= k < t.len() ==> t[k] == s@[pos + k]);
    }
    r
}

/// `mutuals` at the front of the suffix of `s` starting at `pos`?
fn check_mutuals(s: &str, n: usize, pos: usize) -> (r: bool)
    requires
        n == s@.len(),
        pos <= n,
    ensures
        r == starts_with_mutuals(s@.skip(pos as int)),
{
    if n - pos < 7 {
        return false;
    }
    let r = s.get_char(pos) == 'm' && s.get_char(pos + 1) == 'u' && s.get_char(pos + 2) == 't'
        && s.get_char(pos + 3) == 'u' && s.get_char(pos + 4) == 'a' && s.get_char(pos + 5) == 'l'
        && s.get_char(pos + 6) == 's';
    proof {
        let t = s@.skip(pos as int);
        assert(forall|k: int| 0 <= k < t.len() ==> t[k] == s@[pos + k]);
    }
    r
}

/// Is `c` a digit allowed in a duration count?
fn is_digit19_exec(c: char) -> (r: bool)
    ensures
        r == is_digit19(c),
{
    let u = c as u32;
    49 <= u && u <= 57
}

/// Is `c` a duration unit character?
fn is_unit_exec(c: char) -> (r: bool)
    ensures
        r == is_unit(c),
{
    c == 'd' || c == 'w' || c == 'm'
}

/// The number of days `c` stands for.
fn unit_days_exec(c: char) -> (r: u64)
    requires
        is_unit(c),
    ensures
        r == unit_days(c),
{
    if c == 'd' {
        1
    } else if c == 'w' {
        7
    } else {
        30
    }
}

/// Parse one term at position `pos` of `s`, returning the term and how
/// many characters it consumed.
fn term_at(s: &str, n: usize, pos: usize) -> (r: Option<(ListManagerTerm, usize)>)
    requires
        n == s@.len(),
        pos <= n,
    ensures
        match r {
            Some((term, tc)) => {
                &&& parse_term(s@.skip(pos as int)) == Some((term, tc as int))
                &&& 7 <= tc <= n - pos
            },
            None => parse_term(s@.skip(pos as int)) is None,
        },
{
    let ghost t = s@.skip(pos as int);
    proof {
        assert(forall|k: int| 0 <= k < t.len() ==> t[k] == s@[pos + k]);
    }
    if check_last_status(s, n, pos) {
        // duration after the literal
        if n - pos >= 16 && is_digit19_exec(s.get_char(pos + 15)) {
            let d1 = s.get_char(pos + 15);
            if n - pos >= 17 && is_digit19_exec(s.get_char(pos + 16)) {
                let d2 = s.get_char(pos + 16);
                if n - pos >= 18 && is_unit_exec(s.get_char(pos + 17)) {
                    let u = s.get_char(pos + 17);
                    let count = (d1 as u32 - 48) as u64 * 10 + (d2 as u32 - 48) as u64;
                    let ud = unit_days_exec(u);
                    proof {
                        assert(count * ud <= 2970) by (nonlinear_arith)
                            requires
                                count <= 99,
                                ud <= 30,
                        ;
                    }
                    let days = count * ud;
                    Some((ListManagerTerm::LastStatus(days), 18))
                } else {
                    None
                }
            } else {
                if n - pos >= 17 && is_unit_exec(s.get_char(pos + 16)) {
                    let u = s.get_char(pos + 16);
                    let count = (d1 as u32 - 48) as u64;
                    let ud = unit_days_exec(u);
                    proof {
                        assert(count * ud <= 270) by (nonlinear_arith)
                            requires
                                count <= 9,
                                ud <= 30,
                        ;
                    }
                    let days = count * ud;
                    Some((ListManagerTerm::LastStatus(days), 17))
                } else {
                    None
                }
            }
        } else {
            None
        }
    } else if check_mutuals(s, n, pos) {
        Some((ListManagerTerm::Mutuals, 7))
    } else {
        None
    }
}

/// `count_char_from` is the length of the run of `ch` beginning at `i`.
proof fn lemma_count_char(t: Seq<char>, ch: char, i: int, j: int)
    requires
        0 <= i <= j <= t.len(),
        forall|k: int| i <= k < j ==> t[k] == ch,
        j == t.len() || t[j] != ch,
    ensures
        count_char_from(t, ch, i) == j - i,
    decreases j - i,
{
    if i < j {
        lemma_count_char(t, ch, i + 1, j);
    }
}

/// Count the run of `ch` in `s` beginning at `pos`.
fn run_of(s: &str, n: usize, pos: usize, ch: char) -> (c: usize)
    requires
        n == s@.len(),
        pos <= n,
    ensures
        c == count_char_from(s@.skip(pos as int), ch, 0),
        pos + c <= n,
    decreases n - pos,
{
    let ghost t = s@.skip(pos as int);
    proof {
        assert(forall|k: int| 0 <= k < t.len() ==> t[k] == s@[pos + k]);
    }
    let mut j: usize = pos;
    while j < n && s.get_char(j) == ch
        invariant
            n == s@.len(),
            pos <= j <= n,
            forall|k: int| pos <= k < j ==> s@[k] == ch,
        decreases n - j,
    {
        j += 1;
    }
    proof {
        lemma_count_char(t, ch, 0, j - pos);
    }
    j - pos
}

/// Parse an AND separator at position `pos` of `s`, returning how many
/// characters it consumed.
fn sep_at(s: &str, n: usize, pos: usize) -> (r: Option<usize>)
    requires
        n == s@.len(),
        pos <= n,
    ensures
        match r {
            Some(sc) => {
                &&& parse_sep(s@.skip(pos as int)) == Some(sc as int)
                &&& 1 <= sc <= n - pos
            },
            None => parse_sep(s@.skip(pos as int)) is None,
        },
{
    let ghost t = s@.skip(pos as int);
    let a = run_of(s, n, pos, ' ');
    let b = run_of(s, n, pos + a, '&');
    proof {
        assert(t.skip(a as int) =~= s@.skip(pos + a));
        lemma_count_skip(t, '&', a as int);
    }
    if b == 0 {
        return None;
    }
    let c = run_of(s, n, pos + a + b, ' ');
    proof {
        assert(t.skip(a + b) =~= s@.skip(pos + a + b));
        lemma_count_skip(t, ' ', a + b);
    }
    Some(a + b + c)
}

/// Counting within a suffix counts at a shifted position.
proof fn lemma_count_skip(t: Seq<char>, ch: char, i: int)
    requires
        0 <= i <= t.len(),
    ensures
        count_char_from(t, ch, i) == count_char_from(t.skip(i), ch, 0),
{
    lemma_count_shift_one(t, ch, i, 0);
}

proof fn lemma_count_shift_one(t: Seq<char>, ch: char, i: int, k: int)
    requires
        0 <= i <= t.len(),
        0 <= k,
    ensures
        count_char_from(t.skip(i), ch, k) == count_char_from(t, ch, i + k),
    decreases t.len() - i - k,
{
    let u = t.skip(i);
    if k < u.len() && u[k] == ch {
        lemma_count_shift_one(t, ch, i, k + 1);
    }
}


/// `find_hash_from` finds exactly the first `#` at or after `i`.
proof fn lemma_find_hash(s: Seq<char>, i: int, h: int)
    requires
        0 <= i <= h <= s.len(),
        forall|k: int| i <= k < h ==> s[k] != '#',
        h == s.len() || s[h] == '#',
    ensures
        find_hash_from(s, i) == if h < s.len() {
            Some(h)
        } else {
            None::<int>
        },
    decreases h - i,
{
    if i < h {
        lemma_find_hash(s, i + 1, h);
    }
}

impl ListManagerTerms {
    /// Parse a list title into a filter expression: `Ok` exactly when the
    /// title holds one, with the terms in title order.
    pub fn from_str(s: &str) -> (r: Result<ListManagerTerms, ParseError>)
        ensures
            parse_title(s@) matches Some(ts) ==> (r matches Ok(e) && e@ == ts && ts.len() >= 1),
            parse_title(s@) is None ==> r is Err,
    {
        let n = s.unicode_len();
        let mut h: usize = 0;
        while h < n && s.get_char(h) != '#'
            invariant
                n == s@.len(),
                h <= n,
                forall|k: int| 0 <= k < h ==> s@[k] != '#',
            decreases n - h,
        {
            h += 1;
        }
        proof {
            lemma_find_hash(s@, 0, h as int);
        }
        if h == n {
            return Err(ParseError);
        }
        let first = term_at(s, n, h + 1);
        proof {
            assert(parse_title(s@) == parse_terms(s@.skip(h + 1)));
        }
        match first {
            None => Err(ParseError),
            Some((t0, c0)) => {
                let mut out: Vec<ListManagerTerm> = Vec::new();
                out.push(t0);
                let mut pos: usize = h + 1 + c0;
                proof {
                    assert(s@.skip(h + 1).skip(c0 as int) =~= s@.skip(pos as int));
                    assert(out@ =~= seq![t0]);
                    assert(parse_terms(s@.skip(h + 1)) == Some(
                        out@ + parse_terms_rest(s@.skip(pos as int)),
                    ));
                }
                loop
                    invariant
                        n == s@.len(),
                        pos <= n,
                        out@.len() >= 1,
                        parse_terms(s@.skip(h + 1)) == Some(
                            out@ + parse_terms_rest(s@.skip(pos as int)),
                        ),
                    ensures
                        parse_terms(s@.skip(h + 1)) == Some(out@),
                    decreases n - pos,
                {
                    let ghost t = s@.skip(pos as int);
                    let sep = sep_at(s, n, pos);
                    match sep {
                        None => {
                            proof {
                                assert(parse_terms_rest(t) =~= Seq::<ListManagerTerm>::empty());
                                assert(out@ + parse_terms_rest(t) =~= out@);
                            }
                            break ;
                        },
                        Some(sc) => {
                            let next = term_at(s, n, pos + sc);
                            proof {
                                assert(t.skip(sc as int) =~= s@.skip(pos + sc));
                            }
                            match next {
                                None => {
                                    proof {
                                        assert(parse_terms_rest(t)
                                            =~= Seq::<ListManagerTerm>::empty());
                                        assert(out@ + parse_terms_rest(t) =~= out@);
                                    }
                                    break ;
                                },
                                Some((tm, tc)) => {
                                    let ghost old_out = out@;
                                    out.push(tm);
                                    pos = pos + sc + tc;
                                    proof {
                                        assert(t.skip(sc + tc) =~= s@.skip(pos as int));
                                        assert(parse_terms_rest(t) == seq![tm]
                                            + parse_terms_rest(s@.skip(pos as int)));
                                        assert(old_out + (seq![tm] + parse_terms_rest(
                                            s@.skip(pos as int),
                                        )) =~= out@ + parse_terms_rest(s@.skip(pos as int)));
                                    }
                                },
                            }
                        },
                    }
                }
                Ok(ListManagerTerms(out))
            },
        }
    }
}

/// A list paired with the filter expression parsed from its title.
pub struct ListManager {
    pub list: List,
    terms: ListManagerTerms,
}

impl ListManager {
    /// The parsed terms.
    pub closed spec fn terms_view(&self) -> Seq<ListManagerTerm> {
        self.terms@
    }

    /// The managed list.
    pub closed spec fn list_spec(&self) -> List {
        self.list
    }

    /// A manager always holds at least one term.
    pub open spec fn wf(&self) -> bool {
        self.terms_view().len() >= 1
    }

    fn new(list: List, terms: ListManagerTerms) -> (r: ListManager)
        ensures
            r.list_spec() == list,
            r.terms_view() == terms@,
    {
        ListManager { list, terms }
    }

    /// Take charge of `list` if its title parses as a filter expression;
    /// a list whose title does not parse is not an error, merely skipped.
    pub fn parse(list: List) -> (r: Option<ListManager>)
        ensures
            parse_title(list.title@) matches Some(ts) ==> (r matches Some(m) && m.list_spec()
                == list && m.terms_view() == ts && m.wf()),
            parse_title(list.title@) is None ==> r is None,
    {
        match ListManagerTerms::from_str(list.title.as_str()) {
            Ok(terms) => Some(Self::new(list, terms)),
            Err(_) => None,
        }
    }
}


/// How many ids one batch add/remove request may carry.
pub const UPDATE_CHUNK_SIZE: usize = 250;

/// Is a latest status from `day` (or no status at all) older than `days`
/// days before `today`?
pub open spec fn status_older(day: Option<i64>, today: int, days: int) -> bool {
    match day {
        None => true,
        Some(d) => d < today - days,
    }
}

/// Does the follow record `a` satisfy the term `t`, against the memoized
/// relationships `rels`?
pub open spec fn term_matches(
    t: ListManagerTerm,
    a: Account,
    rels: Seq<Relationship>,
    today: int,
) -> bool {
    match t {
        ListManagerTerm::LastStatus(days) => status_older(a.last_status_day, today, days as int),
        ListManagerTerm::Mutuals => match rel_lookup(rels, a.id@) {
            Some(r) => r.following && r.followed_by,
            None => false,
        },
    }
}

/// The ids of the follows selected by one term, in follow order, each id
/// once (its first selected occurrence).
pub open spec fn term_ids(
    t: ListManagerTerm,
    follows: Seq<Account>,
    rels: Seq<Relationship>,
    today: int,
) -> Seq<Seq<char>>
    decreases follows.len(),
{
    if follows.len() == 0 {
        Seq::empty()
    } else {
        let prev = term_ids(t, follows.drop_last(), rels, today);
        let a = follows.last();
        if term_matches(t, a, rels, today) && !prev.contains(a.id@) {
            prev.push(a.id@)
        } else {
            prev
        }
    }
}

/// Is some follow record with id `id` selected by the term `t`?
pub open spec fn term_selects(
    t: ListManagerTerm,
    follows: Seq<Account>,
    rels: Seq<Relationship>,
    today: int,
    id: Seq<char>,
) -> bool {
    exists|i: int|
        0 <= i < follows.len() && follows[i].id@ == id && term_matches(t, follows[i], rels, today)
}

/// The desired member ids of an expression: each term's ids intersected,
/// left to right, the first term seeding the accumulator.
pub open spec fn expr_ids(
    terms: Seq<ListManagerTerm>,
    follows: Seq<Account>,
    rels: Seq<Relationship>,
    today: int,
) -> Seq<Seq<char>>
    decreases terms.len(),
{
    if terms.len() == 0 {
        Seq::empty()
    } else if terms.len() == 1 {
        term_ids(terms[0], follows, rels, today)
    } else {
        expr_ids(terms.drop_last(), follows, rels, today).filter(
            |id: Seq<char>| term_ids(terms.last(), follows, rels, today).contains(id),
        )
    }
}

/// Is `id` selected by every term of a non-empty expression?
pub open spec fn expr_selects(
    terms: Seq<ListManagerTerm>,
    follows: Seq<Account>,
    rels: Seq<Relationship>,
    today: int,
    id: Seq<char>,
) -> bool {
    terms.len() > 0 && forall|k: int|
        0 <= k < terms.len() ==> term_selects(terms[k], follows, rels, today, id)
}

/// An element of a non-empty sequence is its last element or an earlier one.
proof fn lemma_contains_split(s: Seq<Seq<char>>)
    requires
        s.len() > 0,
    ensures
        forall|x: Seq<char>| #[trigger]
            s.contains(x) <==> (s.drop_last().contains(x) || x == s.last()),
{
    assert forall|x: Seq<char>| #[trigger] s.contains(x) implies (s.drop_last().contains(x) || x
        == s.last()) by {
        let i = choose|i: int| 0 <= i < s.len() && s[i] == x;
        if i < s.len() - 1 {
            assert(s.drop_last()[i] == x);
        }
    }
    assert forall|x: Seq<char>| s.drop_last().contains(x) || x == s.last() implies #[trigger] s
        .contains(x) by {
        if s.drop_last().contains(x) {
            let i = choose|i: int| 0 <= i < s.drop_last().len() && s.drop_last()[i] == x;
            assert(s[i] == x);
        } else {
            assert(s[s.len() - 1] == x);
        }
    }
}

/// `term_ids` holds exactly the selected ids, each once.
pub proof fn lemma_term_ids_membership(
    t: ListManagerTerm,
    follows: Seq<Account>,
    rels: Seq<Relationship>,
    today: int,
)
    ensures
        forall|id: Seq<char>| #[trigger]
            term_ids(t, follows, rels, today).contains(id) <==> term_selects(
                t,
                follows,
                rels,
                today,
                id,
            ),
        distinct_ids(term_ids(t, follows, rels, today)),
    decreases follows.len(),
{
    let out = term_ids(t, follows, rels, today);
    if follows.len() == 0 {
        assert(forall|id: Seq<char>| !term_selects(t, follows, rels, today, id));
    } else {
        lemma_term_ids_membership(t, follows.drop_last(), rels, today);
        let prev = term_ids(t, follows.drop_last(), rels, today);
        let a = follows.last();
        assert forall|id: Seq<char>| #[trigger] out.contains(id) implies term_selects(
            t,
            follows,
            rels,
            today,
            id,
        ) by {
            if prev.contains(id) {
                let i = choose|i: int|
                    0 <= i < follows.drop_last().len() && follows.drop_last()[i].id@ == id
                        && term_matches(t, follows.drop_last()[i], rels, today);
                assert(follows[i].id@ == id && term_matches(t, follows[i], rels, today));
            } else {
                if term_matches(t, a, rels, today) && !prev.contains(a.id@) {
                    lemma_contains_split(out);
                    assert(id == a.id@);
                    assert(follows[follows.len() - 1].id@ == id && term_matches(
                        t,
                        follows[follows.len() - 1],
                        rels,
                        today,
                    ));
                }
            }
        }
        assert forall|id: Seq<char>| term_selects(t, follows, rels, today, id) implies #[trigger]
            out.contains(id) by {
            let i = choose|i: int|
                0 <= i < follows.len() && follows[i].id@ == id && term_matches(
                    t,
                    follows[i],
                    rels,
                    today,
                );
            if i < follows.len() - 1 {
                assert(follows.drop_last()[i].id@ == id && term_matches(
                    t,
                    follows.drop_last()[i],
                    rels,
                    today,
                ));
                assert(term_selects(t, follows.drop_last(), rels, today, id));
                assert(prev.contains(id));
                if term_matches(t, a, rels, today) && !prev.contains(a.id@) {
                    let j = choose|j: int| 0 <= j < prev.len() && prev[j] == id;
                    assert(out[j] == id);
                }
            } else {
                // the last record is selected
                if prev.contains(a.id@) {
                    let j = choose|j: int| 0 <= j < prev.len() && prev[j] == a.id@;
                    assert(out[j] == id);
                } else {
                    assert(out.last() == a.id@);
                    assert(out[out.len() - 1] == id);
                }
            }
        }
        if term_matches(t, a, rels, today) && !prev.contains(a.id@) {
            assert forall|p: int, q: int| 0 <= p < q < out.len() implies out[p] != out[q] by {
                if q == out.len() - 1 {
                    assert(prev[p] == out[p]);
                    assert(prev.contains(out[p]));
                }
            }
        }
    }
}

/// `expr_ids` holds exactly the ids selected by every term, each once.
pub proof fn lemma_expr_ids_membership(
    terms: Seq<ListManagerTerm>,
    follows: Seq<Account>,
    rels: Seq<Relationship>,
    today: int,
)
    ensures
        forall|id: Seq<char>| #[trigger]
            expr_ids(terms, follows, rels, today).contains(id) <==> expr_selects(
                terms,
                follows,
                rels,
                today,
                id,
            ),
        distinct_ids(expr_ids(terms, follows, rels, today)),
    decreases terms.len(),
{
    let out = expr_ids(terms, follows, rels, today);
    if terms.len() == 0 {
    } else if terms.len() == 1 {
        lemma_term_ids_membership(terms[0], follows, rels, today);
    } else {
        lemma_expr_ids_membership(terms.drop_last(), follows, rels, today);
        lemma_term_ids_membership(terms.last(), follows, rels, today);
        let prev = expr_ids(terms.drop_last(), follows, rels, today);
        let p = |id: Seq<char>| term_ids(terms.last(), follows, rels, today).contains(id);
        lemma_filter_membership(prev, p);
        lemma_filter_distinct(prev, p);
        assert forall|id: Seq<char>| #[trigger] out.contains(id) implies expr_selects(
            terms,
            follows,
            rels,
            today,
            id,
        ) by {
            assert(expr_selects(terms.drop_last(), follows, rels, today, id));
            assert forall|k: int| 0 <= k < terms.len() implies term_selects(
                terms[k],
                follows,
                rels,
                today,
                id,
            ) by {
                if k < terms.len() - 1 {
                    assert(terms.drop_last()[k] == terms[k]);
                } else {
                    assert(terms.last() == terms[k]);
                }
            }
        }
        assert forall|id: Seq<char>| expr_selects(terms, follows, rels, today, id) implies
            #[trigger] out.contains(id) by {
            assert forall|k: int| 0 <= k < terms.drop_last().len() implies term_selects(
                #[trigger] terms.drop_last()[k],
                follows,
                rels,
                today,
                id,
            ) by {
                assert(terms.drop_last()[k] == terms[k]);
            }
            assert(expr_selects(terms.drop_last(), follows, rels, today, id));
            assert(term_selects(terms[terms.len() - 1], follows, rels, today, id));
            assert(p(id));
        }
    }
}


/// What is left of the desired ids `init` after crossing off each observed
/// member of `obs` in turn.
pub open spec fn walk_remaining(init: Seq<Seq<char>>, obs: Seq<Seq<char>>) -> Seq<Seq<char>>
    decreases obs.len(),
{
    if obs.len() == 0 {
        init
    } else {
        walk_remaining(init, obs.drop_last()).remove_value(obs.last())
    }
}

/// The observed members queued for deletion: those that were not among the
/// desired ids still to cross off when they were observed.
pub open spec fn walk_to_delete(init: Seq<Seq<char>>, obs: Seq<Seq<char>>) -> Seq<Seq<char>>
    decreases obs.len(),
{
    if obs.len() == 0 {
        Seq::empty()
    } else {
        let prev = walk_to_delete(init, obs.drop_last());
        if walk_remaining(init, obs.drop_last()).contains(obs.last()) {
            prev
        } else {
            prev.push(obs.last())
        }
    }
}

/// Removing a value from a sequence of pairwise-distinct ids keeps the
/// rest distinct.
pub proof fn lemma_remove_value_distinct(s: Seq<Seq<char>>, x: Seq<char>)
    requires
        distinct_ids(s),
    ensures
        distinct_ids(s.remove_value(x)),
{
    s.index_of_first_ensures(x);
    match s.index_of_first(x) {
        Some(i) => lemma_remove_distinct(s, i),
        None => {},
    }
}

/// In a sequence of pairwise-distinct ids, removing `x` removes exactly `x`.
pub proof fn lemma_remove_value_membership(s: Seq<Seq<char>>, x: Seq<char>)
    requires
        distinct_ids(s),
    ensures
        forall|y: Seq<char>| #[trigger]
            s.remove_value(x).contains(y) <==> (s.contains(y) && y != x),
{
    s.index_of_first_ensures(x);
    match s.index_of_first(x) {
        Some(i) => {
            let r = s.remove(i);
            s.remove_ensures(i);
            assert forall|y: Seq<char>| #[trigger] r.contains(y) implies (s.contains(y) && y
                != x) by {
                let j = choose|j: int| 0 <= j < r.len() && r[j] == y;
                if j < i {
                    assert(s[j] == y);
                } else {
                    assert(s[j + 1] == y);
                }
            }
            assert forall|y: Seq<char>| s.contains(y) && y != x implies #[trigger] r.contains(
                y,
            ) by {
                let j = choose|j: int| 0 <= j < s.len() && s[j] == y;
                if j < i {
                    assert(r[j] == y);
                } else {
                    assert(j != i);
                    assert(r[j - 1] == s[j]);
                }
            }
        },
        None => {
            assert forall|y: Seq<char>| s.contains(y) implies y != x by {}
        },
    }
}

/// Crossing off keeps the remaining desired ids distinct.
pub proof fn lemma_walk_remaining_distinct(init: Seq<Seq<char>>, obs: Seq<Seq<char>>)
    requires
        distinct_ids(init),
    ensures
        distinct_ids(walk_remaining(init, obs)),
    decreases obs.len(),
{
    if obs.len() > 0 {
        lemma_walk_remaining_distinct(init, obs.drop_last());
        lemma_remove_value_distinct(walk_remaining(init, obs.drop_last()), obs.last());
    }
}

/// What remains after the walk is what was desired and never observed.
pub proof fn lemma_walk_remaining_membership(init: Seq<Seq<char>>, obs: Seq<Seq<char>>)
    requires
        distinct_ids(init),
    ensures
        forall|x: Seq<char>| #[trigger]
            walk_remaining(init, obs).contains(x) <==> (init.contains(x) && !obs.contains(x)),
    decreases obs.len(),
{
    if obs.len() == 0 {
        assert(forall|x: Seq<char>| !obs.contains(x));
    } else {
        lemma_walk_remaining_membership(init, obs.drop_last());
        lemma_walk_remaining_distinct(init, obs.drop_last());
        lemma_remove_value_membership(walk_remaining(init, obs.drop_last()), obs.last());
        lemma_contains_split(obs);
    }
}

/// With no duplicate observations, the deletion queue is exactly the
/// observed members that were never desired, in observation order.
pub proof fn lemma_walk_to_delete_filter(init: Seq<Seq<char>>, obs: Seq<Seq<char>>)
    requires
        distinct_ids(init),
        distinct_ids(obs),
    ensures
        walk_to_delete(init, obs) == obs.filter(|x: Seq<char>| !init.contains(x)),
    decreases obs.len(),
{
    reveal(Seq::filter);
    let p = |x: Seq<char>| !init.contains(x);
    if obs.len() == 0 {
    } else {
        let prev_obs = obs.drop_last();
        lemma_walk_to_delete_filter(init, prev_obs);
        lemma_walk_remaining_membership(init, prev_obs);
        assert(!prev_obs.contains(obs.last()));
        assert(walk_remaining(init, prev_obs).contains(obs.last()) <==> init.contains(obs.last()));
    }
}

/// The deletion queue never holds duplicates when the observations held
/// none.
pub proof fn lemma_walk_to_delete_distinct(init: Seq<Seq<char>>, obs: Seq<Seq<char>>)
    requires
        distinct_ids(init),
        distinct_ids(obs),
    ensures
        distinct_ids(walk_to_delete(init, obs)),
{
    lemma_walk_to_delete_filter(init, obs);
    lemma_filter_distinct(obs, |x: Seq<char>| !init.contains(x));
}

/// Reconciliation is idempotent: when the observed membership already
/// equals the desired set, nothing is added and nothing is deleted.
pub proof fn lemma_sync_plan_idempotent(init: Seq<Seq<char>>, obs: Seq<Seq<char>>)
    requires
        distinct_ids(init),
        distinct_ids(obs),
        init.to_set() == obs.to_set(),
    ensures
        walk_remaining(init, obs).len() == 0,
        walk_to_delete(init, obs).len() == 0,
        ceil_div(walk_remaining(init, obs).len() as int, UPDATE_CHUNK_SIZE as int) == 0,
        ceil_div(walk_to_delete(init, obs).len() as int, UPDATE_CHUNK_SIZE as int) == 0,
{
    lemma_walk_remaining_membership(init, obs);
    lemma_walk_to_delete_filter(init, obs);
    let p = |x: Seq<char>| !init.contains(x);
    lemma_filter_membership(obs, p);
    assert forall|x: Seq<char>| true implies !(#[trigger] walk_remaining(init, obs).contains(
        x,
    )) by {
        assert(init.contains(x) == init.to_set().contains(x));
        assert(obs.contains(x) == obs.to_set().contains(x));
    }
    if walk_remaining(init, obs).len() > 0 {
        assert(walk_remaining(init, obs).contains(walk_remaining(init, obs)[0]));
    }
    assert forall|x: Seq<char>| true implies !(#[trigger] walk_to_delete(init, obs).contains(
        x,
    )) by {
        assert(init.contains(x) == init.to_set().contains(x));
        assert(obs.contains(x) == obs.to_set().contains(x));
    }
    if walk_to_delete(init, obs).len() > 0 {
        assert(walk_to_delete(init, obs).contains(walk_to_delete(init, obs)[0]));
    }
}

/// Reconciliation is correct: the additions are exactly the desired ids
/// not observed, and the deletions exactly the observed ids not desired.
pub proof fn lemma_sync_plan_correct(init: Seq<Seq<char>>, obs: Seq<Seq<char>>)
    requires
        distinct_ids(init),
        distinct_ids(obs),
    ensures
        walk_remaining(init, obs).to_set() == init.to_set().difference(obs.to_set()),
        walk_to_delete(init, obs).to_set() == obs.to_set().difference(init.to_set()),
        distinct_ids(walk_remaining(init, obs)),
        distinct_ids(walk_to_delete(init, obs)),
{
    lemma_walk_remaining_membership(init, obs);
    lemma_walk_remaining_distinct(init, obs);
    lemma_walk_to_delete_filter(init, obs);
    lemma_walk_to_delete_distinct(init, obs);
    lemma_filter_membership(obs, |x: Seq<char>| !init.contains(x));
    assert(walk_remaining(init, obs).to_set() =~= init.to_set().difference(obs.to_set()));
    assert(walk_to_delete(init, obs).to_set() =~= obs.to_set().difference(init.to_set()));
}


/// Evaluate one term against the cached follows and relationships.
fn eval_term(term: &ListManagerTerm, follows: &Vec<Account>, cache: &ApiCache, today: i64) -> (r:
    IdSet)
    ensures
        r@ == term_ids(*term, follows@, cache.rels_spec(), today as int),
        r.wf(),
{
    let mut r = IdSet::new();
    let n = follows.len();
    proof {
        assert(follows@.take(0) =~= Seq::<Account>::empty());
    }
    for k in 0..n
        invariant
            n == follows@.len(),
            r@ == term_ids(*term, follows@.take(k as int), cache.rels_spec(), today as int),
            r.wf(),
    {
        proof {
            assert(follows@.take(k + 1).drop_last() =~= follows@.take(k as int));
            assert(follows@.take(k + 1).last() == follows@[k as int]);
        }
        let selected = match term {
            ListManagerTerm::LastStatus(days) => {
                match follows[k].last_status_day {
                    None => true,
                    Some(d) => (d as i128) < (today as i128) - (*days as i128),
                }
            },
            ListManagerTerm::Mutuals => {
                match cache.lookup_relationship(&follows[k].id) {
                    Some(rel) => rel.following && rel.followed_by,
                    None => false,
                }
            },
        };
        assert(selected == term_matches(*term, follows@[k as int], cache.rels_spec(), today as int));
        if selected {
            r.insert(follows[k].id.clone());
        }
    }
    proof {
        assert(follows@.take(n as int) =~= follows@);
    }
    r
}

impl ListManager {
    /// The ids the list should hold: the intersection of every term's
    /// selection, evaluated against the cached follows and relationships.
    pub fn get_new_member_ids(&self, cache: &ApiCache, today: i64) -> (r: IdSet)
        requires
            cache.follows_spec() is Some,
        ensures
            r@ == expr_ids(
                self.terms_view(),
                cache.follows_spec().unwrap(),
                cache.rels_spec(),
                today as int,
            ),
            r.wf(),
            forall|id: Seq<char>| #[trigger]
                r@.contains(id) <==> expr_selects(
                    self.terms_view(),
                    cache.follows_spec().unwrap(),
                    cache.rels_spec(),
                    today as int,
                    id,
                ),
    {
        let follows = cache.get_follows().unwrap();
        let m = self.terms.0.len();
        proof {
            lemma_expr_ids_membership(
                self.terms_view(),
                follows@,
                cache.rels_spec(),
                today as int,
            );
        }
        if m == 0 {
            let r = IdSet::new();
            return r;
        }
        let mut r = eval_term(&self.terms.0[0], follows, cache, today);
        proof {
            assert(self.terms_view().take(1).len() == 1);
            assert(self.terms_view().take(1)[0] == self.terms_view()[0]);
        }
        let mut k: usize = 1;
        while k < m
            invariant
                1 <= k <= m,
                m == self.terms_view().len(),
                cache.follows_spec() == Some(follows@),
                r@ == expr_ids(
                    self.terms_view().take(k as int),
                    follows@,
                    cache.rels_spec(),
                    today as int,
                ),
                r.wf(),
            decreases m - k,
        {
            let tset = eval_term(&self.terms.0[k], follows, cache, today);
            let r2 = r.intersect(&tset);
            proof {
                let terms = self.terms_view();
                let pre = terms.take(k as int);
                let cur = terms.take(k + 1);
                assert(cur.drop_last() =~= pre);
                assert(cur.last() == terms[k as int]);
                let p1 = |x: Seq<char>| tset@.contains(x);
                let p2 = |id: Seq<char>|
                    term_ids(cur.last(), follows@, cache.rels_spec(), today as int).contains(id);
                assert(p1 =~= p2);
                assert(r2@ == expr_ids(cur, follows@, cache.rels_spec(), today as int));
            }
            r = r2;
            k += 1;
        }
        proof {
            assert(self.terms_view().take(m as int) =~= self.terms_view());
        }
        r
    }
}

/// A reconciliation plan: the ids to add to and to remove from a list,
/// laid out as batches of at most `UPDATE_CHUNK_SIZE`, one request each.
pub struct SyncPlan {
    pub additions: Vec<Vec<String>>,
    pub deletions: Vec<Vec<String>>,
}

impl SyncPlan {
    /// How many batch mutation requests this plan issues.
    pub open spec fn request_count(&self) -> nat {
        self.additions@.len() + self.deletions@.len()
    }
}

/// One pass over a list's observed membership, crossing observed members
/// off the desired set and queueing undesired ones for deletion.
pub struct SyncWalk {
    remaining: IdSet,
    to_delete: Vec<String>,
    num_old: usize,
    initial: Ghost<Seq<Seq<char>>>,
    observed: Ghost<Seq<Seq<char>>>,
}

impl SyncWalk {
    /// The desired ids the walk started from.
    pub closed spec fn initial_spec(&self) -> Seq<Seq<char>> {
        self.initial@
    }

    /// The members observed so far, in order.
    pub closed spec fn observed_spec(&self) -> Seq<Seq<char>> {
        self.observed@
    }

    /// The desired ids not yet observed.
    pub closed spec fn remaining_ids(&self) -> Seq<Seq<char>> {
        self.remaining@
    }

    /// The observed members queued for deletion.
    pub closed spec fn to_delete_ids(&self) -> Seq<Seq<char>> {
        ids_view(self.to_delete@)
    }

    /// How many members were observed.
    pub closed spec fn num_old_spec(&self) -> int {
        self.num_old as int
    }

    pub open spec fn wf(&self) -> bool {
        &&& distinct_ids(self.initial_spec())
        &&& self.remaining_ids() == walk_remaining(self.initial_spec(), self.observed_spec())
        &&& self.to_delete_ids() == walk_to_delete(self.initial_spec(), self.observed_spec())
        &&& self.num_old_spec() == self.observed_spec().len()
    }

    /// Start a walk from the desired ids.
    pub fn begin(desired: IdSet) -> (w: SyncWalk)
        requires
            desired.wf(),
        ensures
            w.wf(),
            w.initial_spec() == desired@,
            w.observed_spec() == Seq::<Seq<char>>::empty(),
    {
        let ghost init = desired@;
        let w = SyncWalk {
            remaining: desired,
            to_delete: Vec::new(),
            num_old: 0,
            initial: Ghost(init),
            observed: Ghost(Seq::empty()),
        };
        proof {
            assert(w.to_delete_ids() =~= Seq::<Seq<char>>::empty());
        }
        w
    }

    /// Observe one current member: cross it off the desired set if it is
    /// there, else queue it for deletion.
    pub fn observe_member(&mut self, id: String)
        requires
            old(self).wf(),
            old(self).num_old_spec() < usize::MAX,
        ensures
            final(self).wf(),
            final(self).initial_spec() == old(self).initial_spec(),
            final(self).observed_spec() == old(self).observed_spec().push(id@),
    {
        proof {
            lemma_walk_remaining_distinct(self.initial@, self.observed@);
        }
        let ghost old_to_delete = self.to_delete@;
        let was_present = self.remaining.remove(&id);
        if !was_present {
            self.to_delete.push(id);
            proof {
                assert(ids_view(self.to_delete@) =~= ids_view(old_to_delete).push(
                    self.to_delete@.last()@,
                ));
            }
        }
        self.num_old = self.num_old + 1;
        proof {
            self.observed@ = self.observed@.push(id@);
            assert(self.observed@.drop_last() =~= old(self).observed@);
            assert(self.observed@.last() == id@);
        }
    }

    /// Observe one page of current members, in order.
    pub fn observe_page(&mut self, page: &Vec<String>)
        requires
            old(self).wf(),
            old(self).num_old_spec() + page@.len() <= usize::MAX,
        ensures
            final(self).wf(),
            final(self).initial_spec() == old(self).initial_spec(),
            final(self).observed_spec() == old(self).observed_spec() + ids_view(page@),
    {
        let n = page.len();
        proof {
            assert(old(self).observed_spec() + ids_view(page@.take(0)) =~= old(
                self,
            ).observed_spec());
        }
        for i in 0..n
            invariant
                n == page@.len(),
                self.wf(),
                self.initial_spec() == old(self).initial_spec(),
                self.observed_spec() == old(self).observed_spec() + ids_view(page@.take(i as int)),
                self.num_old_spec() + (n - i) <= usize::MAX,
        {
            self.observe_member(page[i].clone());
            proof {
                assert(old(self).observed_spec() + ids_view(page@.take(i + 1)) =~= (old(
                    self,
                ).observed_spec() + ids_view(page@.take(i as int))).push(page@[i as int]@));
            }
        }
        proof {
            assert(page@.take(n as int) =~= page@);
        }
    }

    /// End the walk: what is left to add and to delete, in batches of at
    /// most `UPDATE_CHUNK_SIZE` ids, one request per batch.
    pub fn finish(self) -> (plan: SyncPlan)
        requires
            self.wf(),
        ensures
            flat_ids(plan.additions@) == walk_remaining(self.initial_spec(), self.observed_spec()),
            plan.additions@.len() == ceil_div(
                walk_remaining(self.initial_spec(), self.observed_spec()).len() as int,
                UPDATE_CHUNK_SIZE as int,
            ),
            chunked(plan.additions@, UPDATE_CHUNK_SIZE as int),
            flat_ids(plan.deletions@) == walk_to_delete(self.initial_spec(), self.observed_spec()),
            plan.deletions@.len() == ceil_div(
                walk_to_delete(self.initial_spec(), self.observed_spec()).len() as int,
                UPDATE_CHUNK_SIZE as int,
            ),
            chunked(plan.deletions@, UPDATE_CHUNK_SIZE as int),
    {
        let to_add = self.remaining.into_vec();
        let additions = chunk_ids(&to_add, UPDATE_CHUNK_SIZE);
        let deletions = chunk_ids(&self.to_delete, UPDATE_CHUNK_SIZE);
        SyncPlan { additions, deletions }
    }
}

impl ListManager {
    /// Plan one synchronization of the list: compute the desired member
    /// ids from the cache, cross off the observed membership pages, and
    /// lay out the additions and deletions as batched requests.
    pub fn sync_list(&self, cache: &ApiCache, today: i64, member_pages: &Vec<Vec<String>>) -> (plan:
        SyncPlan)
        requires
            cache.follows_spec() is Some,
            flat(member_pages@.map_values(|p: Vec<String>| p@)).len() < usize::MAX,
        ensures
            ({
                let desired = expr_ids(
                    self.terms_view(),
                    cache.follows_spec().unwrap(),
                    cache.rels_spec(),
                    today as int,
                );
                let obs = flat_ids(member_pages@);
                &&& flat_ids(plan.additions@) == walk_remaining(desired, obs)
                &&& plan.additions@.len() == ceil_div(
                    walk_remaining(desired, obs).len() as int,
                    UPDATE_CHUNK_SIZE as int,
                )
                &&& chunked(plan.additions@, UPDATE_CHUNK_SIZE as int)
                &&& flat_ids(plan.deletions@) == walk_to_delete(desired, obs)
                &&& plan.deletions@.len() == ceil_div(
                    walk_to_delete(desired, obs).len() as int,
                    UPDATE_CHUNK_SIZE as int,
                )
                &&& chunked(plan.deletions@, UPDATE_CHUNK_SIZE as int)
            }),
    {
        let desired = self.get_new_member_ids(cache, today);
        let mut walk = SyncWalk::begin(desired);
        let n = member_pages.len();
        proof {
            assert(walk.observed_spec() + Seq::<Seq<char>>::empty() =~= walk.observed_spec());
            assert(member_pages@.take(0).map_values(|p: Vec<String>| p@)
                =~= Seq::<Seq<String>>::empty());
            assert(flat_ids(member_pages@.take(0)) =~= Seq::<Seq<char>>::empty());
            assert(walk.observed_spec() =~= flat_ids(member_pages@.take(0)));
        }
        for i in 0..n
            invariant
                n == member_pages@.len(),
                walk.wf(),
                walk.initial_spec() == expr_ids(
                    self.terms_view(),
                    cache.follows_spec().unwrap(),
                    cache.rels_spec(),
                    today as int,
                ),
                walk.observed_spec() == flat_ids(member_pages@.take(i as int)),
                flat(member_pages@.map_values(|p: Vec<String>| p@)).len() < usize::MAX,
        {
            proof {
                lemma_flat_take_len(member_pages@, i + 1);
                assert(member_pages@.take(i + 1).map_values(|p: Vec<String>| p@).drop_last()
                    =~= member_pages@.take(i as int).map_values(|p: Vec<String>| p@));
                assert(flat(member_pages@.take(i + 1).map_values(|p: Vec<String>| p@)) =~= flat(
                    member_pages@.take(i as int).map_values(|p: Vec<String>| p@),
                ) + member_pages@[i as int]@);
                assert(walk.num_old_spec() == flat(
                    member_pages@.take(i as int).map_values(|p: Vec<String>| p@),
                ).len());
            }
            walk.observe_page(&member_pages[i]);
            proof {
                assert(flat_ids(member_pages@.take(i + 1)) =~= flat_ids(member_pages@.take(
                    i as int,
                )) + ids_view(member_pages@[i as int]@));
            }
        }
        proof {
            assert(member_pages@.take(n as int) =~= member_pages@);
        }
        walk.finish()
    }
}

/// A prefix of the pages holds no more items than all of them.
proof fn lemma_flat_take_len(cs: Seq<Vec<String>>, j: int)
    requires
        0 <= j <= cs.len(),
    ensures
        flat(cs.take(j).map_values(|p: Vec<String>| p@)).len() <= flat(
            cs.map_values(|p: Vec<String>| p@),
        ).len(),
    decreases cs.len() - j,
{
    if j < cs.len() {
        lemma_flat_take_len(cs, j + 1);
        assert(cs.take(j + 1).map_values(|p: Vec<String>| p@).drop_last() =~= cs.take(
            j,
        ).map_values(|p: Vec<String>| p@));
    } else {
        assert(cs.take(j) =~= cs);
    }
}


/// Relies on chrono::Local::now and chrono::Datelike::num_days_from_ce:
/// the current civil date in the machine's local time zone, as a count of
/// days from the common era.  Nothing is promised of the value: it depends
/// on the clock and the time zone.
#[verifier::external_body]
fn current_day_number() -> (d: i64) {
    chrono::Datelike::num_days_from_ce(&chrono::Local::now().date_naive()) as i64
}

impl ListManager {
    /// The desired member ids against the machine's current local date:
    /// whatever day the clock reports, every term is evaluated against
    /// that one day.
    pub fn get_new_member_ids_today(&self, cache: &ApiCache) -> (r: IdSet)
        requires
            cache.follows_spec() is Some,
        ensures
            r.wf(),
            exists|today: i64|
                r@ == expr_ids(
                    self.terms_view(),
                    cache.follows_spec().unwrap(),
                    cache.rels_spec(),
                    today as int,
                ),
    {
        let today = current_day_number();
        let r = self.get_new_member_ids(cache, today);
        proof {
            assert(r@ == expr_ids(
                self.terms_view(),
                cache.follows_spec().unwrap(),
                cache.rels_spec(),
                today as int,
            ));
        }
        r
    }
}


impl ListManager {
    /// Does any term of the expression read relationships, so that the
    /// cache must hold them before evaluation?
    pub fn needs_relationships(&self) -> (r: bool)
        ensures
            r == exists|k: int|
                0 <= k < self.terms_view().len() && self.terms_view()[k] is Mutuals,
    {
        let n = self.terms.0.len();
        for i in 0..n
            invariant
                n == self.terms_view().len(),
                forall|k: int| 0 <= k < i ==> !(self.terms_view()[k] is Mutuals),
        {
            match self.terms.0[i] {
                ListManagerTerm::Mutuals => {
                    assert(self.terms_view()[i as int] is Mutuals);
                    return true;
                },
                ListManagerTerm::LastStatus(_) => {},
            }
        }
        false
    }
}

} // verus!
