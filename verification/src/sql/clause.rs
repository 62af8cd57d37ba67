//! Clauses that a statement may end with: `WITH RECALL <fraction>` and
//! `WITH SIMILARITY <fraction>`.

use vstd::prelude::*;

use crate::json::{parse_real, real_parsed};
use crate::number::Double;
use crate::server::router::{
    find_next, skip_block_comment, skip_dollar_quoted, skip_quoted, step, the_scan_advances,
};
use crate::text::{
    chars_of, is_space, is_white, same_ignore_case, same_ignoring_case, split_words, string_of,
    trim, trimmed, views, words,
};

verus! {

/// The clause that calibrates the index under a recall target.
pub const RECALL: &'static str = "recall";

/// The clause that says how similar duplicates are.
pub const SIMILARITY: &'static str = "similarity";

/// Whether a statement ends, from a position on, in `WITH`, a keyword and a
/// number.
pub open spec fn ends_with_clause(s: Seq<char>, i: int, keyword: Seq<char>) -> bool {
    let w = words(s.skip(i));
    &&& !is_space(s[i])
    &&& i == 0 || is_space(s[i - 1])
    &&& w.len() == 3
    &&& same_ignoring_case(w[0], "with"@)
    &&& same_ignoring_case(w[1], keyword)
    &&& real_parsed(w[2]) is Some
}

/// Where the clause begins that a statement ends with, from a position on. What
/// stands in quotes or comments is stepped over.
pub open spec fn clause_start(s: Seq<char>, i: int, keyword: Seq<char>) -> Option<int>
    decreases s.len() - i,
{
    if i >= s.len() {
        None
    } else if ends_with_clause(s, i, keyword) {
        Some(i)
    } else {
        let j = step(s, i);
        clause_start(
            s,
            if i < j <= s.len() {
                j
            } else {
                i + 1
            },
            keyword,
        )
    }
}

/// A statement without the clause that it ended with, and the number that the
/// clause gave.
#[derive(Debug)]
pub struct Clause {
    pub statement: String,
    pub number: Double,
}

/// Reads `WITH`, a keyword and a number.
fn read_clause(rest: &str, keyword: &str) -> (r: Option<Double>)
    ensures
        ({
            let w = words(rest@);
            let reads = w.len() == 3 && same_ignoring_case(w[0], "with"@) && same_ignoring_case(
                w[1],
                keyword@,
            ) && real_parsed(w[2]) is Some;
            match r {
                Some(number) => reads && real_parsed(w[2]) == Some(number.bits),
                None => !reads,
            }
        }),
{
    let list = split_words(rest);
    assert(views(list@).len() == list@.len());
    if list.len() != 3 {
        return None;
    }
    assert(views(list@)[0] == list@[0]@ && views(list@)[1] == list@[1]@ && views(list@)[2]
        == list@[2]@);
    if !same_ignore_case(list[0].as_str(), "with") || !same_ignore_case(
        list[1].as_str(),
        keyword,
    ) {
        return None;
    }
    parse_real(list[2].as_str())
}

/// Takes off the clause that a statement ends with, if it ends with one.
pub fn split_clause(statement: &str, keyword: &str) -> (r: Option<Clause>)
    ensures
        match r {
            Some(clause) => clause_start(statement@, 0, keyword@) matches Some(p)
                && clause.statement@ == trimmed(statement@.take(p)) && real_parsed(
                words(statement@.skip(p))[2],
            ) == Some(clause.number.bits),
            None => clause_start(statement@, 0, keyword@) is None,
        },
{
    let chars = chars_of(statement);
    let n: usize = chars.len();
    let ghost s = statement@;
    let mut i: usize = 0;
    while i < n
        invariant
            i <= n == chars.len(),
            chars@ == s,
            s == statement@,
            clause_start(s, 0, keyword@) == clause_start(s, i as int, keyword@),
        decreases n - i,
    {
        proof {
            the_scan_advances(s, i as int);
        }
        let c = chars[i];
        if !is_white(c) && (i == 0 || is_white(chars[i - 1])) {
            let rest = string_of(&chars, i, n);
            assert(rest@ =~= s.skip(i as int));
            if let Some(number) = read_clause(rest.as_str(), keyword) {
                let body = string_of(&chars, 0, i);
                assert(body@ =~= s.take(i as int));
                return Some(Clause { statement: trim(body.as_str()), number });
            }
        }
        if c == '\'' || c == '"' {
            i = skip_quoted(&chars, i);
        } else if c == '$' {
            i = skip_dollar_quoted(&chars, i);
        } else if c == '-' && n - i > 1 && chars[i + 1] == '-' {
            i =
            match find_next(&chars, '\n', i) {
                Some(k) => k,
                None => n,
            };
        } else if c == '/' && n - i > 1 && chars[i + 1] == '*' {
            i = skip_block_comment(&chars, i);
        } else {
            i += 1;
        }
    }
    None
}

/// What is taken for a clause is one: from where it begins, at the start of a word,
/// a statement holds three words, `WITH`, the keyword and a number.
pub proof fn what_is_cut_off_is_a_clause(s: Seq<char>, from: int, keyword: Seq<char>)
    requires
        0 <= from,
    ensures
        clause_start(s, from, keyword) matches Some(p) ==> {
            let w = words(s.skip(p));
            &&& from <= p < s.len()
            &&& !is_space(s[p]) && (p == 0 || is_space(s[p - 1]))
            &&& w.len() == 3
            &&& same_ignoring_case(w[0], "with"@) && same_ignoring_case(w[1], keyword)
            &&& real_parsed(w[2]) is Some
        },
    decreases s.len() - from,
{
    if from < s.len() && !ends_with_clause(s, from, keyword) {
        let j = step(s, from);
        what_is_cut_off_is_a_clause(
            s,
            if from < j <= s.len() {
                j
            } else {
                from + 1
            },
            keyword,
        );
    }
}

/// A clause that a statement ends with is found, where no quote and no comment can
/// hide it.
pub proof fn a_plain_clause_is_found(s: Seq<char>, from: int, at: int, keyword: Seq<char>)
    requires
        0 <= from <= at < s.len(),
        !is_space(s[at]) && (at == 0 || is_space(s[at - 1])),
        words(s.skip(at)).len() == 3,
        same_ignoring_case(words(s.skip(at))[0], "with"@),
        same_ignoring_case(words(s.skip(at))[1], keyword),
        real_parsed(words(s.skip(at))[2]) is Some,
        forall|i: int|
            from <= i < at ==> #[trigger] s[i] != '\'' && s[i] != '"' && s[i] != '$' && s[i] != '-'
                && s[i] != '/',
    ensures
        clause_start(s, from, keyword) is Some,
        clause_start(s, from, keyword)->0 <= at,
    decreases at - from,
{
    if from < at && !ends_with_clause(s, from, keyword) {
        assert(step(s, from) == from + 1);
        a_plain_clause_is_found(s, from + 1, at, keyword);
    }
}

}
