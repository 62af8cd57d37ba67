//! What holds of [`split_statements`](crate::server::router::split_statements)
//! as a whole: where the statements stand in the text, and that splitting them
//! again, alone or joined, changes nothing.

use vstd::prelude::*;

use crate::server::router::{
    comment_end, dollar_end, is_tag, lemma_comment_end, lemma_quoted_end, line_end, next_char,
    next_text, pair_at, piece, quoted_end, statements, step, tag_char, the_scan_advances,
};
use crate::text::{drop_leading, drop_trailing, is_space, joined, trimmed, Class};

verus! {

/// Where the statement ends that is being scanned at a position: at the next
/// top-level semicolon, or at the end of the text.
pub open spec fn scan_end(s: Seq<char>, i: int) -> int
    decreases s.len() - i,
{
    if i >= s.len() {
        s.len() as int
    } else if s[i] == ';' {
        i
    } else {
        let j = step(s, i);
        scan_end(
            s,
            if i < j <= s.len() {
                j
            } else {
                i + 1
            },
        )
    }
}

proof fn lemma_scan_end(s: Seq<char>, start: int, i: int)
    requires
        0 <= start <= i <= s.len(),
    ensures
        ({
            let e = scan_end(s, i);
            &&& i <= e <= s.len()
            &&& e < s.len() ==> s[e] == ';' && statements(s, start, i) == piece(s, start, e)
                + statements(s, e + 1, e + 1)
            &&& e == s.len() ==> statements(s, start, i) == piece(s, start, e)
        }),
    decreases s.len() - i,
{
    if i < s.len() && s[i] != ';' {
        the_scan_advances(s, i);
        lemma_scan_end(s, start, step(s, i));
    }
}

/// Whether a part of a text is what is left of the whole without white space
/// around it.
spec fn core_at(x: Seq<char>, a: int, b: int) -> bool {
    &&& 0 <= a <= b <= x.len()
    &&& forall|k: int| 0 <= k < a ==> is_space(#[trigger] x[k])
    &&& forall|k: int| b <= k < x.len() ==> is_space(#[trigger] x[k])
    &&& a < b ==> !is_space(x[a]) && !is_space(x[b - 1])
}

proof fn lemma_trailing(x: Seq<char>, b: int)
    requires
        0 <= b <= x.len(),
        forall|k: int| b <= k < x.len() ==> is_space(#[trigger] x[k]),
        0 < b ==> !is_space(x[b - 1]),
    ensures
        drop_trailing(x, Class::Space) == x.subrange(0, b),
    decreases x.len(),
{
    if b < x.len() {
        assert(is_space(x[x.len() - 1]));
        lemma_trailing(x.drop_last(), b);
        assert(x.drop_last().subrange(0, b) =~= x.subrange(0, b));
    } else {
        assert(x.subrange(0, b) =~= x);
    }
}

proof fn lemma_trimmed_is(x: Seq<char>, a: int, b: int)
    requires
        core_at(x, a, b),
    ensures
        trimmed(x) == x.subrange(a, b),
    decreases x.len(),
{
    if x.len() > 0 && is_space(x[0]) {
        let rest = x.drop_first();
        if a == 0 {
            assert(b == 0);
            assert forall|k: int| 0 <= k < rest.len() implies is_space(#[trigger] rest[k]) by {
                assert(rest[k] == x[k + 1]);
            }
            lemma_trimmed_is(rest, 0, 0);
            assert(rest.subrange(0, 0) =~= x.subrange(0, 0));
        } else {
            assert forall|k: int| 0 <= k < a - 1 implies is_space(#[trigger] rest[k]) by {
                assert(rest[k] == x[k + 1]);
            }
            assert forall|k: int| b - 1 <= k < rest.len() implies is_space(#[trigger] rest[k]) by {
                assert(rest[k] == x[k + 1]);
            }
            lemma_trimmed_is(rest, a - 1, b - 1);
            assert(rest.subrange(a - 1, b - 1) =~= x.subrange(a, b));
        }
    } else {
        if a > 0 {
            assert(is_space(x[0]));
        }
        if b == 0 && x.len() > 0 {
            assert(is_space(x[0]));
        }
        assert(drop_leading(x, Class::Space) == x);
        lemma_trailing(x, b);
    }
}

proof fn lemma_core(x: Seq<char>) -> (at: (int, int))
    ensures
        core_at(x, at.0, at.1),
    decreases x.len(),
{
    if x.len() == 0 {
        (0, 0)
    } else if is_space(x[0]) {
        let rest = x.drop_first();
        let (a, b) = lemma_core(rest);
        assert forall|k: int| 0 <= k < a + 1 implies is_space(#[trigger] x[k]) by {
            if k > 0 {
                assert(rest[k - 1] == x[k]);
            }
        }
        assert forall|k: int| b + 1 <= k < x.len() implies is_space(#[trigger] x[k]) by {
            assert(rest[k - 1] == x[k]);
        }
        if a < b {
            assert(rest[a] == x[a + 1] && rest[b - 1] == x[b]);
        }
        (a + 1, b + 1)
    } else if is_space(x.last()) {
        let rest = x.drop_last();
        let (a, b) = lemma_core(rest);
        assert forall|k: int| 0 <= k < a implies is_space(#[trigger] x[k]) by {
            assert(rest[k] == x[k]);
        }
        assert forall|k: int| b <= k < x.len() implies is_space(#[trigger] x[k]) by {
            if k < rest.len() {
                assert(rest[k] == x[k]);
            }
        }
        if a < b {
            assert(rest[a] == x[a] && rest[b - 1] == x[b - 1]);
        }
        (a, b)
    } else {
        (0, x.len() as int)
    }
}

/// White space before a statement is stepped over.
proof fn lemma_skip_space(s: Seq<char>, i: int, to: int)
    requires
        0 <= i <= to <= s.len(),
        forall|k: int| i <= k < to ==> is_space(#[trigger] s[k]),
    ensures
        scan_end(s, i) == scan_end(s, to),
    decreases to - i,
{
    if i < to {
        assert(is_space(s[i]));
        lemma_skip_space(s, i + 1, to);
    }
}

/// Two texts of which a part of one, from `a` up to `b`, stands in the other
/// too, `d` further on. In the first only white space comes between the part and
/// the end of its statement at `e`; in the second the part is followed by the end
/// of the text or, where the first goes on, by a line break and a semicolon.
spec fn aligned(s: Seq<char>, u: Seq<char>, a: int, b: int, e: int, d: int) -> bool {
    &&& 0 <= a <= b <= e <= s.len()
    &&& 0 <= a + d
    &&& b + d <= u.len()
    &&& forall|k: int| a <= k < b ==> #[trigger] s[k] == u[k + d]
    &&& forall|k: int| b <= k < e ==> is_space(#[trigger] s[k])
    &&& e < s.len() ==> s[e] == ';'
    &&& b + d == u.len() || goes_on(s, u, b, e, d)
}

spec fn goes_on(s: Seq<char>, u: Seq<char>, b: int, e: int, d: int) -> bool {
    e < s.len() && b + d + 1 < u.len() && u[b + d] == '\n' && u[b + d + 1] == ';'
}

proof fn lemma_no_quote(s: Seq<char>, q: char, i: int, e: int)
    requires
        q == '\'' || q == '"',
        0 <= i <= e <= s.len(),
        forall|k: int| i <= k < e ==> is_space(#[trigger] s[k]),
        e < s.len() ==> s[e] == ';',
    ensures
        e < s.len() ==> quoted_end(s, q, i) > e,
        e == s.len() ==> quoted_end(s, q, i) == e,
    decreases e - i,
{
    if i < e {
        assert(is_space(s[i]));
        lemma_no_quote(s, q, i + 1, e);
    } else if e < s.len() {
        lemma_quoted_end(s, q, e + 1);
    }
}

spec fn least(x: int, y: int) -> int {
    if x <= y {
        x
    } else {
        y
    }
}

proof fn lemma_same_quoted(
    s: Seq<char>,
    u: Seq<char>,
    a: int,
    b: int,
    e: int,
    d: int,
    q: char,
    i: int,
)
    requires
        aligned(s, u, a, b, e, d),
        q == '\'' || q == '"',
        a <= i <= b,
        quoted_end(s, q, i) <= e,
    ensures
        quoted_end(u, q, i + d) == least(quoted_end(s, q, i), b) + d,
    decreases b - i,
{
    if i < b {
        assert(s[i] == u[i + d]);
        if s[i] == q {
            if i + 1 < b {
                assert(s[i + 1] == u[i + 1 + d]);
                if s[i + 1] == q {
                    lemma_same_quoted(s, u, a, b, e, d, q, i + 2);
                }
            } else if i + 1 < s.len() {
                if b < e {
                    assert(is_space(s[b]));
                }
            }
        } else {
            lemma_same_quoted(s, u, a, b, e, d, q, i + 1);
        }
    } else {
        lemma_no_quote(s, q, b, e);
    }
}

proof fn lemma_first_char(s: Seq<char>, c: char, i: int)
    requires
        0 <= i <= s.len(),
    ensures
        match next_char(s, c, i) {
            Some(k) => i <= k < s.len() && s[k] == c && forall|m: int|
                i <= m < k ==> #[trigger] s[m] != c,
            None => forall|m: int| i <= m < s.len() ==> #[trigger] s[m] != c,
        },
    decreases s.len() - i,
{
    if i < s.len() && s[i] != c {
        lemma_first_char(s, c, i + 1);
    }
}

/// Where a character stands with none like it before, it is the next.
proof fn lemma_next_char_is(s: Seq<char>, c: char, i: int, k: int)
    requires
        0 <= i <= k < s.len(),
        s[k] == c,
        forall|m: int| i <= m < k ==> #[trigger] s[m] != c,
    ensures
        next_char(s, c, i) == Some(k),
    decreases k - i,
{
    if i < k {
        assert(s[i] != c);
        lemma_next_char_is(s, c, i + 1, k);
    }
}

proof fn lemma_no_next_char(s: Seq<char>, c: char, i: int)
    requires
        0 <= i <= s.len(),
        forall|m: int| i <= m < s.len() ==> #[trigger] s[m] != c,
    ensures
        next_char(s, c, i) is None,
    decreases s.len() - i,
{
    if i < s.len() {
        assert(s[i] != c);
        lemma_no_next_char(s, c, i + 1);
    }
}

/// Whether a text stands at a position.
spec fn stands(s: Seq<char>, part: Seq<char>, m: int) -> bool {
    0 <= m && m + part.len() <= s.len() && s.subrange(m, m + part.len()) == part
}

proof fn lemma_first_text(s: Seq<char>, part: Seq<char>, i: int)
    requires
        0 <= i <= s.len(),
        part.len() > 0,
    ensures
        match next_text(s, part, i) {
            Some(k) => i <= k && stands(s, part, k) && forall|m: int|
                i <= m < k ==> !#[trigger] stands(s, part, m),
            None => forall|m: int| i <= m ==> !#[trigger] stands(s, part, m),
        },
    decreases s.len() - i,
{
    if i + part.len() <= s.len() && s.subrange(i, i + part.len()) != part {
        lemma_first_text(s, part, i + 1);
        assert(!stands(s, part, i));
    }
}

proof fn lemma_next_text_is(s: Seq<char>, part: Seq<char>, i: int, k: int)
    requires
        0 <= i <= k,
        part.len() > 0,
        stands(s, part, k),
        forall|m: int| i <= m < k ==> !#[trigger] stands(s, part, m),
    ensures
        next_text(s, part, i) == Some(k),
    decreases k - i,
{
    if i < k {
        assert(!stands(s, part, i));
        lemma_next_text_is(s, part, i + 1, k);
    }
}

proof fn lemma_no_next_text(s: Seq<char>, part: Seq<char>, i: int)
    requires
        0 <= i <= s.len(),
        part.len() > 0,
        forall|m: int| i <= m ==> !#[trigger] stands(s, part, m),
    ensures
        next_text(s, part, i) is None,
    decreases s.len() - i,
{
    if i + part.len() <= s.len() {
        assert(!stands(s, part, i));
        lemma_no_next_text(s, part, i + 1);
    }
}

/// What stands inside the part stands in both texts.
proof fn lemma_same_place(
    s: Seq<char>,
    u: Seq<char>,
    a: int,
    b: int,
    e: int,
    d: int,
    part: Seq<char>,
    m: int,
)
    requires
        aligned(s, u, a, b, e, d),
        a <= m,
        m + part.len() <= b,
    ensures
        stands(s, part, m) == stands(u, part, m + d),
        s.subrange(m, m + part.len()) == u.subrange(m + d, m + d + part.len()),
{
    let x = s.subrange(m, m + part.len());
    let y = u.subrange(m + d, m + d + part.len());
    assert forall|k: int| 0 <= k < part.len() implies x[k] == y[k] by {
        assert(s[m + k] == u[m + k + d]);
    }
    assert(x =~= y);
}

/// The next `$` of the first text stands inside the part, or opens no quote.
proof fn lemma_same_dollar(s: Seq<char>, u: Seq<char>, a: int, b: int, e: int, d: int, p: int)
    requires
        aligned(s, u, a, b, e, d),
        a <= p < b,
        s[p] == '$',
        dollar_end(s, p) <= e,
    ensures
        dollar_end(u, p + d) == least(dollar_end(s, p), b) + d,
{
    lemma_first_char(s, '$', p + 1);
    lemma_first_char(u, '$', p + 1 + d);
    let here = next_char(s, '$', p + 1);
    let there = next_char(u, '$', p + 1 + d);
    if here is Some && here->0 < b {
        let k = here->0;
        assert(s[k] == u[k + d]);
        assert forall|m: int| p + 1 + d <= m < k + d implies #[trigger] u[m] != '$' by {
            assert(s[m - d] == u[m - d + d]);
            assert(s[m - d] != '$');
        }
        lemma_next_char_is(u, '$', p + 1 + d, k + d);
        assert(is_tag(s, p + 1, k) == is_tag(u, p + 1 + d, k + d)) by {
            if is_tag(s, p + 1, k) {
                assert forall|m: int| p + 1 + d <= m < k + d implies tag_char(
                    #[trigger] u[m],
                ) by {
                    assert(s[m - d] == u[m - d + d]);
                    assert(tag_char(s[m - d]));
                }
            }
            if is_tag(u, p + 1 + d, k + d) {
                assert forall|m: int| p + 1 <= m < k implies tag_char(#[trigger] s[m]) by {
                    assert(s[m] == u[m + d]);
                    assert(tag_char(u[m + d]));
                }
            }
        }
        if is_tag(s, p + 1, k) {
            let tag = s.subrange(p, k + 1);
            lemma_same_place(s, u, a, b, e, d, tag, p);
            assert(u.subrange(p + d, k + d + 1) =~= tag);
            lemma_same_tag(s, u, a, b, e, d, p, k);
        }
    } else {
        lemma_no_tag(s, u, a, b, e, d, p);
    }
}

/// Where a quote begins whose tag lies inside the part, it ends alike.
proof fn lemma_same_tag(
    s: Seq<char>,
    u: Seq<char>,
    a: int,
    b: int,
    e: int,
    d: int,
    p: int,
    k: int,
)
    requires
        aligned(s, u, a, b, e, d),
        a <= p < k < b,
        s[k] == '$',
        ({
            let tag = s.subrange(p, k + 1);
            match next_text(s, tag, k + 1) {
                Some(m) => m + tag.len() <= e,
                None => s.len() <= e,
            }
        }),
    ensures
        ({
            let tag = s.subrange(p, k + 1);
            match next_text(s, tag, k + 1) {
                Some(m) => m + tag.len() <= b && next_text(u, tag, k + 1 + d) == Some(m + d),
                None => b + d == u.len() && next_text(u, tag, k + 1 + d) is None,
            }
        }),
{
    let tag = s.subrange(p, k + 1);
    lemma_first_text(s, tag, k + 1);
    match next_text(s, tag, k + 1) {
        Some(m) => {
            let last = m + tag.len() - 1;
            assert(s.subrange(m, m + tag.len())[tag.len() - 1] == tag[tag.len() - 1]);
            assert(s[last] == '$');
            if last >= b {
                assert(is_space(s[last]));
            }
            lemma_same_place(s, u, a, b, e, d, tag, m);
            assert forall|n: int| k + 1 + d <= n < m + d implies !#[trigger] stands(u, tag, n) by {
                lemma_same_place(s, u, a, b, e, d, tag, n - d);
                assert(!stands(s, tag, n - d));
            }
            lemma_next_text_is(u, tag, k + 1 + d, m + d);
        },
        None => {
            assert forall|n: int| k + 1 + d <= n implies !#[trigger] stands(u, tag, n) by {
                if n + tag.len() <= u.len() {
                    lemma_same_place(s, u, a, b, e, d, tag, n - d);
                    assert(!stands(s, tag, n - d));
                }
            }
            lemma_no_next_text(u, tag, k + 1 + d);
        },
    }
}

/// Where no `$` follows inside the part, none opens a quote.
proof fn lemma_no_tag(s: Seq<char>, u: Seq<char>, a: int, b: int, e: int, d: int, p: int)
    requires
        aligned(s, u, a, b, e, d),
        a <= p < b,
        next_char(s, '$', p + 1) matches Some(k) ==> b <= k,
    ensures
        dollar_end(s, p) == p + 1,
        dollar_end(u, p + d) == p + d + 1,
{
    lemma_first_char(s, '$', p + 1);
    lemma_first_char(u, '$', p + 1 + d);
    if next_char(s, '$', p + 1) is Some {
        let k = next_char(s, '$', p + 1)->0;
        if k < e {
            assert(is_space(s[k]));
        }
        assert(k > e);
        assert(!tag_char(s[e]));
        assert(!is_tag(s, p + 1, k));
    }
    if next_char(u, '$', p + 1 + d) is Some {
        let k = next_char(u, '$', p + 1 + d)->0;
        if k < b + d {
            assert(s[k - d] == u[k - d + d]);
            assert(s[k - d] == '$');
        }
        assert(k > b + d);
        assert(!tag_char(u[b + d]));
        assert(!is_tag(u, p + 1 + d, k));
    }
}

proof fn lemma_same_line(s: Seq<char>, u: Seq<char>, a: int, b: int, e: int, d: int, p: int)
    requires
        aligned(s, u, a, b, e, d),
        a <= p < b,
    ensures
        line_end(u, p + d) == least(line_end(s, p), b) + d,
{
    lemma_first_char(s, '\n', p);
    let here = next_char(s, '\n', p);
    let k = if here is Some && here->0 < b {
        here->0
    } else {
        b
    };
    assert forall|m: int| p + d <= m < k + d implies #[trigger] u[m] != '\n' by {
        assert(s[m - d] == u[m - d + d]);
        assert(s[m - d] != '\n');
    }
    if k < b {
        assert(s[k] == u[k + d]);
        lemma_next_char_is(u, '\n', p + d, k + d);
    } else if b + d < u.len() {
        lemma_next_char_is(u, '\n', p + d, b + d);
    } else {
        lemma_no_next_char(u, '\n', p + d);
    }
}

/// The same two characters stand at a place of the part in both texts, for
/// characters that neither follow the part.
proof fn lemma_same_pair(
    s: Seq<char>,
    u: Seq<char>,
    a: int,
    b: int,
    e: int,
    d: int,
    i: int,
    x: char,
    y: char,
)
    requires
        aligned(s, u, a, b, e, d),
        a <= i < b,
        y == '-' || y == '*' || y == '/',
    ensures
        pair_at(s, i, x, y) == pair_at(u, i + d, x, y),
        pair_at(s, i, x, y) ==> i + 2 <= b,
{
    assert(s[i] == u[i + d]);
    if i + 1 < b {
        assert(s[i + 1] == u[i + 1 + d]);
    } else if b < e {
        assert(is_space(s[b]));
    }
}

proof fn lemma_no_comment(s: Seq<char>, i: int, e: int, depth: nat)
    requires
        0 <= i <= e <= s.len(),
        forall|k: int| i <= k < e ==> is_space(#[trigger] s[k]),
        e < s.len() ==> s[e] == ';',
    ensures
        e < s.len() ==> comment_end(s, i, depth) > e,
        e == s.len() ==> comment_end(s, i, depth) == e,
    decreases e - i,
{
    if i < e {
        assert(is_space(s[i]));
        lemma_no_comment(s, i + 1, e, depth);
    } else if e < s.len() {
        lemma_comment_end(s, e + 1, depth);
    }
}

proof fn lemma_same_comment(
    s: Seq<char>,
    u: Seq<char>,
    a: int,
    b: int,
    e: int,
    d: int,
    i: int,
    depth: nat,
)
    requires
        aligned(s, u, a, b, e, d),
        a <= i <= b,
        comment_end(s, i, depth) <= e,
    ensures
        comment_end(u, i + d, depth) == least(comment_end(s, i, depth), b) + d,
    decreases b - i,
{
    if i < b {
        lemma_same_pair(s, u, a, b, e, d, i, '/', '*');
        lemma_same_pair(s, u, a, b, e, d, i, '*', '/');
        if pair_at(s, i, '/', '*') {
            lemma_same_comment(s, u, a, b, e, d, i + 2, depth + 1);
        } else if pair_at(s, i, '*', '/') {
            if depth > 1 {
                lemma_same_comment(s, u, a, b, e, d, i + 2, (depth - 1) as nat);
            }
        } else {
            lemma_same_comment(s, u, a, b, e, d, i + 1, depth);
        }
    } else {
        lemma_no_comment(s, b, e, depth);
    }
}

/// One step inside the part is the same step in both texts, as far as the part
/// goes.
proof fn lemma_same_step(s: Seq<char>, u: Seq<char>, a: int, b: int, e: int, d: int, p: int)
    requires
        aligned(s, u, a, b, e, d),
        a <= p < b,
        step(s, p) <= e,
    ensures
        step(u, p + d) == least(step(s, p), b) + d,
{
    let c = s[p];
    assert(c == u[p + d]);
    lemma_same_pair(s, u, a, b, e, d, p, '-', '-');
    lemma_same_pair(s, u, a, b, e, d, p, '/', '*');
    if c == '\'' || c == '"' {
        lemma_same_quoted(s, u, a, b, e, d, c, p + 1);
    } else if c == '$' {
        lemma_same_dollar(s, u, a, b, e, d, p);
    } else if pair_at(s, p, '-', '-') {
        lemma_same_line(s, u, a, b, e, d, p);
    } else if pair_at(s, p, '/', '*') {
        lemma_same_comment(s, u, a, b, e, d, p, 0);
    }
}

/// A statement that ends in the first text just behind the part ends in the
/// second at the end of the text, or at the semicolon behind it.
proof fn lemma_same_end(s: Seq<char>, u: Seq<char>, a: int, b: int, e: int, d: int, p: int)
    requires
        aligned(s, u, a, b, e, d),
        a <= p <= b,
        p == b || scan_end(s, p) == e,
    ensures
        b + d == u.len() ==> scan_end(u, p + d) == u.len(),
        b + d < u.len() ==> scan_end(u, p + d) == b + d + 1,
    decreases b - p,
{
    if p == b {
        if b + d < u.len() {
            assert(u[b + d] == '\n');
            assert(step(u, b + d) == b + d + 1);
            assert(scan_end(u, b + d) == scan_end(u, b + d + 1));
        }
    } else {
        assert(s[p] == u[p + d]);
        the_scan_advances(s, p);
        the_scan_advances(u, p + d);
        let j = step(s, p);
        lemma_scan_end(s, j, j);
        lemma_same_step(s, u, a, b, e, d, p);
        lemma_same_end(s, u, a, b, e, d, least(j, b));
    }
}

/// What a statement is by where it stands: `a` and `b` are its ends, in a text
/// that is being scanned from `start` on and in which it ends at `e`.
proof fn lemma_statement_at(s: Seq<char>, start: int) -> (at: (int, int))
    requires
        0 <= start <= s.len(),
    ensures
        ({
            let e = scan_end(s, start);
            let (a, b) = at;
            &&& start <= a <= b <= e
            &&& piece(s, start, e) == if a < b {
                seq![s.subrange(a, b)]
            } else {
                Seq::<Seq<char>>::empty()
            }
            &&& a < b ==> !is_space(s[a]) && !is_space(s[b - 1])
            &&& forall|k: int| b <= k < e ==> is_space(#[trigger] s[k])
            &&& scan_end(s, a) == e
        }),
{
    lemma_scan_end(s, start, start);
    let e = scan_end(s, start);
    let x = s.subrange(start, e);
    let (a, b) = lemma_core(x);
    lemma_trimmed_is(x, a, b);
    assert(x.subrange(a, b) =~= s.subrange(start + a, start + b));
    assert forall|k: int| start <= k < start + a implies is_space(#[trigger] s[k]) by {
        assert(x[k - start] == s[k]);
    }
    assert forall|k: int| start + b <= k < e implies is_space(#[trigger] s[k]) by {
        assert(x[k - start] == s[k]);
    }
    if a < b {
        assert(x[a] == s[start + a] && x[b - 1] == s[start + b - 1]);
    }
    lemma_skip_space(s, start, start + a);
    (start + a, start + b)
}

/// A text without white space at its ends is its own, followed by white space or
/// not.
proof fn lemma_trimmed_again(t: Seq<char>, x: Seq<char>)
    requires
        t.len() > 0,
        !is_space(t[0]),
        !is_space(t[t.len() - 1]),
        x == t || x == t.push('\n'),
    ensures
        trimmed(x) == t,
{
    assert(x[0] == t[0] && x[t.len() - 1] == t[t.len() - 1]);
    lemma_trimmed_is(x, 0, t.len() as int);
    assert(x.subrange(0, t.len() as int) =~= t);
}

proof fn lemma_splits_to_itself(s: Seq<char>, start: int, k: int)
    requires
        0 <= start <= s.len(),
        0 <= k < statements(s, start, start).len(),
    ensures
        ({
            let t = statements(s, start, start)[k];
            statements(t, 0, 0) == seq![t]
        }),
    decreases s.len() - start,
{
    lemma_scan_end(s, start, start);
    let e = scan_end(s, start);
    let (a, b) = lemma_statement_at(s, start);
    let head = piece(s, start, e);
    if k < head.len() {
        let t = s.subrange(a, b);
        assert(aligned(s, t, a, b, e, -a)) by {
            assert forall|m: int| a <= m < b implies #[trigger] s[m] == t[m + (-a)] by {}
        }
        lemma_same_end(s, t, a, b, e, -a, a);
        lemma_scan_end(t, 0, 0);
        assert(t.subrange(0, t.len() as int) =~= t);
        lemma_trimmed_again(t, t);
        assert(statements(s, start, start)[k] == t);
    } else {
        lemma_splits_to_itself(s, e + 1, k - head.len());
    }
}

/// A statement splits to itself: splitting what a client sent is done once and
/// for all.
pub proof fn a_statement_splits_to_itself(s: Seq<char>, k: int)
    requires
        0 <= k < statements(s, 0, 0).len(),
    ensures
        statements(statements(s, 0, 0)[k], 0, 0) == seq![statements(s, 0, 0)[k]],
{
    lemma_splits_to_itself(s, 0, k);
}

proof fn lemma_joined_front(t: Seq<char>, rest: Seq<Seq<char>>, sep: Seq<char>)
    requires
        rest.len() > 0,
    ensures
        joined(seq![t] + rest, sep) == t + sep + joined(rest, sep),
    decreases rest.len(),
{
    let all = seq![t] + rest;
    if rest.len() == 1 {
        assert(all.drop_last() =~= seq![t]);
        assert(all.last() == rest[0]);
        assert(joined(seq![t], sep) == t);
        assert(joined(rest, sep) == rest[0]);
    } else {
        assert(all.drop_last() =~= seq![t] + rest.drop_last());
        assert(all.last() == rest.last());
        lemma_joined_front(t, rest.drop_last(), sep);
        assert(joined(all, sep) =~= t + sep + joined(rest, sep));
    }
}

proof fn lemma_joined_splits(s: Seq<char>, start: int, u: Seq<char>, c: int)
    requires
        0 <= start <= s.len(),
        0 <= c <= u.len(),
        u.skip(c) == joined(statements(s, start, start), seq!['\n', ';']),
    ensures
        statements(u, c, c) == statements(s, start, start),
    decreases s.len() - start,
{
    let sep = seq!['\n', ';'];
    let all = statements(s, start, start);
    let e = scan_end(s, start);
    lemma_scan_end(s, start, start);
    let (a, b) = lemma_statement_at(s, start);
    let rest = if e < s.len() {
        statements(s, e + 1, e + 1)
    } else {
        Seq::empty()
    };
    if a == b {
        assert(all =~= rest);
        if e < s.len() {
            lemma_joined_splits(s, e + 1, u, c);
        } else {
            assert(u.skip(c).len() == 0);
            assert(u.subrange(c, u.len() as int).len() == 0);
        }
    } else {
        let t = s.subrange(a, b);
        let d = c - a;
        let n = t.len() as int;
        assert(all =~= seq![t] + rest);
        if rest.len() == 0 {
            assert(all =~= seq![t]);
            assert(u.skip(c) == t);
        } else {
            lemma_joined_front(t, rest, sep);
        }
        assert(u.len() - c == u.skip(c).len());
        assert forall|m: int| a <= m < b implies #[trigger] s[m] == u[m + d] by {
            assert(t[m - a] == u.skip(c)[m - a]);
        }
        if rest.len() > 0 {
            assert(u.skip(c)[n] == '\n' && u.skip(c)[n + 1] == ';');
        }
        assert(aligned(s, u, a, b, e, d));
        lemma_same_end(s, u, a, b, e, d, a);
        lemma_scan_end(u, c, c);
        if rest.len() == 0 {
            assert(u.subrange(c, u.len() as int) =~= t);
            lemma_trimmed_again(t, t);
        } else {
            assert(u.subrange(c, c + n + 1) =~= t.push('\n')) by {
                assert forall|m: int| 0 <= m < n implies u[c + m] == t[m] by {
                    assert(s[a + m] == u[a + m + d]);
                }
            }
            lemma_trimmed_again(t, t.push('\n'));
            let next = c + n + 2;
            assert(u.skip(next) =~= joined(rest, sep)) by {
                assert forall|m: int| 0 <= m < u.len() - next implies #[trigger] u.skip(next)[m]
                    == joined(rest, sep)[m] by {
                    assert(u.skip(c)[n + 2 + m] == (t + sep + joined(rest, sep))[n + 2 + m]);
                }
            }
            lemma_joined_splits(s, e + 1, u, next);
        }
    }
}

/// Statements that are joined with a line break and a semicolon between them
/// split into the same statements. The line break ends a line comment that a
/// statement may end in.
pub proof fn joined_statements_split_alike(s: Seq<char>)
    ensures
        statements(joined(statements(s, 0, 0), "\n;"@), 0, 0) == statements(s, 0, 0),
{
    reveal_strlit("\n;");
    assert("\n;"@ =~= seq!['\n', ';']);
    let u = joined(statements(s, 0, 0), "\n;"@);
    assert(u.skip(0) =~= u);
    lemma_joined_splits(s, 0, u, 0);
}

/// Whether statements stand at places of a text: in order, apart from each other,
/// without white space at their ends, and none empty.
pub open spec fn stand_at(s: Seq<char>, list: Seq<Seq<char>>, at: Seq<(int, int)>) -> bool {
    &&& at.len() == list.len()
    &&& forall|k: int|
        0 <= k < at.len() ==> {
            let (a, b) = #[trigger] at[k];
            &&& 0 <= a < b <= s.len()
            &&& list[k] == s.subrange(a, b)
            &&& !is_space(s[a])
            &&& !is_space(s[b - 1])
        }
    &&& forall|j: int, k: int|
        0 <= j < k < at.len() ==> (#[trigger] at[j]).1 < (#[trigger] at[k]).0
}

proof fn lemma_places(s: Seq<char>, start: int) -> (at: Seq<(int, int)>)
    requires
        0 <= start <= s.len(),
    ensures
        stand_at(s, statements(s, start, start), at),
        forall|k: int| 0 <= k < at.len() ==> start <= (#[trigger] at[k]).0,
    decreases s.len() - start,
{
    let e = scan_end(s, start);
    lemma_scan_end(s, start, start);
    let (a, b) = lemma_statement_at(s, start);
    let later = if e < s.len() {
        lemma_places(s, e + 1)
    } else {
        Seq::empty()
    };
    if a < b {
        let at = seq![(a, b)] + later;
        assert forall|k: int| 0 < k < at.len() implies #[trigger] at[k] == later[k - 1] by {}
        at
    } else {
        later
    }
}

/// The statements are parts of the text as they stood in it, in their order, and
/// no two of them overlap.
pub proof fn statements_stand_in_the_text(s: Seq<char>)
    ensures
        exists|at: Seq<(int, int)>| stand_at(s, statements(s, 0, 0), at),
{
    let at = lemma_places(s, 0);
    assert(stand_at(s, statements(s, 0, 0), at));
}

/// A quoted run ends at the next quote of its kind, unless that one is doubled: then
/// it goes on behind the pair. Without another quote it takes in all the rest.
pub proof fn a_quote_ends_where_it_closes(s: Seq<char>, i: int, k: int)
    requires
        0 <= i < k <= s.len(),
        s[i] == '\'' || s[i] == '"',
        forall|m: int| i < m < k ==> #[trigger] s[m] != s[i],
    ensures
        k == s.len() ==> step(s, i) == s.len(),
        k < s.len() && s[k] == s[i] && (k + 1 == s.len() || s[k + 1] != s[i]) ==> step(s, i) == k
            + 1,
        k + 1 < s.len() && s[k] == s[i] && s[k + 1] == s[i] ==> step(s, i) > k + 1,
        k + 2 < s.len() && s[k] == s[i] && s[k + 1] == s[i] && s[k + 2] == s[i] && (k + 3 == s.len()
            || s[k + 3] != s[i]) ==> step(s, i) == k + 3,
{
    lemma_inside_quotes(s, s[i], i + 1, k);
    if k + 1 < s.len() && s[k] == s[i] && s[k + 1] == s[i] {
        lemma_quoted_end(s, s[i], k + 2);
    }
}

proof fn lemma_inside_quotes(s: Seq<char>, quote: char, i: int, k: int)
    requires
        0 <= i <= k <= s.len(),
        forall|m: int| i <= m < k ==> #[trigger] s[m] != quote,
    ensures
        quoted_end(s, quote, i) == quoted_end(s, quote, k),
    decreases k - i,
{
    if i < k {
        assert(s[i] != quote);
        lemma_inside_quotes(s, quote, i + 1, k);
    }
}

/// A dollar quote ends behind the next place where the tag stands that opened it, and
/// takes in all the rest where there is none; a dollar sign that opens no tag is a
/// character.
pub proof fn a_dollar_quote_ends_at_its_own_tag(s: Seq<char>, i: int, k: int, m: int)
    requires
        0 <= i < k < s.len(),
        s[i] == '$' && s[k] == '$',
        forall|x: int| i < x < k ==> #[trigger] s[x] != '$',
        k < m,
        forall|x: int| k < x < m ==> #[trigger] s.subrange(x, x + k + 1 - i) != s.subrange(i, k + 1),
    ensures
        (exists|x: int| i < x < k && !tag_char(#[trigger] s[x])) ==> step(s, i) == i + 1,
        (forall|x: int| i < x < k ==> tag_char(#[trigger] s[x])) && m + k + 1 - i <= s.len()
            && s.subrange(m, m + k + 1 - i) == s.subrange(i, k + 1) ==> step(s, i) == m + k + 1 - i,
        (forall|x: int| i < x < k ==> tag_char(#[trigger] s[x])) && m + k + 1 - i > s.len()
            ==> step(s, i) == s.len(),
{
    lemma_next_char_is(s, '$', i + 1, k);
    let tag = s.subrange(i, k + 1);
    assert forall|x: int| k + 1 <= x < m implies !#[trigger] stands(s, tag, x) by {
        if stands(s, tag, x) {
            assert(s.subrange(x, x + k + 1 - i) == tag);
        }
    }
    if is_tag(s, i + 1, k) {
        if m + k + 1 - i > s.len() {
            assert forall|x: int| k + 1 <= x implies !#[trigger] stands(s, tag, x) by {}
            lemma_no_next_text(s, tag, k + 1);
        } else if s.subrange(m, m + k + 1 - i) == tag {
            assert(stands(s, tag, m));
            lemma_next_text_is(s, tag, k + 1, m);
        }
    }
}

/// A dollar sign without another behind it is a character.
pub proof fn a_lone_dollar_is_a_character(s: Seq<char>, i: int)
    requires
        0 <= i < s.len(),
        s[i] == '$',
        forall|x: int| i < x < s.len() ==> #[trigger] s[x] != '$',
    ensures
        step(s, i) == i + 1,
{
    lemma_no_next_char(s, '$', i + 1);
}

/// A line comment ends where its line does.
pub proof fn a_line_comment_ends_with_its_line(s: Seq<char>, i: int, k: int)
    requires
        0 <= i && i + 1 < s.len(),
        s[i] == '-' && s[i + 1] == '-',
        i < k <= s.len(),
        forall|x: int| i <= x < k ==> #[trigger] s[x] != '\n',
        k < s.len() ==> s[k] == '\n',
    ensures
        step(s, i) == k,
{
    if k < s.len() {
        lemma_next_char_is(s, '\n', i, k);
    } else {
        lemma_no_next_char(s, '\n', i);
    }
}

/// A block comment ends behind the mark that closes it, and takes in all the rest
/// where none does.
pub proof fn a_block_comment_ends_where_it_closes(s: Seq<char>, i: int, k: int)
    requires
        0 <= i && i + 2 <= k <= s.len(),
        s[i] == '/' && s[i + 1] == '*',
        forall|x: int|
            i + 2 <= x < k ==> !(#[trigger] s[x] == '/' && x + 1 < s.len() && s[x + 1] == '*'),
        forall|x: int|
            i + 2 <= x < k ==> !(#[trigger] s[x] == '*' && x + 1 < s.len() && s[x + 1] == '/'),
    ensures
        k == s.len() ==> step(s, i) == s.len(),
        k + 1 < s.len() && s[k] == '*' && s[k + 1] == '/' ==> step(s, i) == k + 2,
{
    lemma_inside_comment(s, i + 2, k, 1);
}

proof fn lemma_inside_comment(s: Seq<char>, i: int, k: int, depth: nat)
    requires
        0 <= i <= k <= s.len(),
        forall|x: int|
            i <= x < k ==> !(#[trigger] s[x] == '/' && x + 1 < s.len() && s[x + 1] == '*'),
        forall|x: int|
            i <= x < k ==> !(#[trigger] s[x] == '*' && x + 1 < s.len() && s[x + 1] == '/'),
    ensures
        comment_end(s, i, depth) == comment_end(s, k, depth),
    decreases k - i,
{
    if i < k {
        assert(!(s[i] == '/' && i + 1 < s.len() && s[i + 1] == '*'));
        assert(!(s[i] == '*' && i + 1 < s.len() && s[i + 1] == '/'));
        lemma_inside_comment(s, i + 1, k, depth);
    }
}

/// Block comments nest: inside one, another is stepped over as it would be by
/// itself.
pub proof fn block_comments_nest(s: Seq<char>, i: int, depth: nat)
    requires
        0 <= i && i + 1 < s.len(),
        s[i] == '/' && s[i + 1] == '*',
        depth > 0,
    ensures
        comment_end(s, i, depth) == comment_end(s, step(s, i), depth),
{
    lemma_nested(s, i + 2, 1, depth);
}

proof fn lemma_nested(s: Seq<char>, i: int, inner: nat, outer: nat)
    requires
        0 <= i,
        inner > 0,
        outer > 0,
    ensures
        comment_end(s, i, inner + outer) == comment_end(s, comment_end(s, i, inner), outer),
    decreases s.len() - i,
{
    if i < s.len() {
        if pair_at(s, i, '/', '*') {
            lemma_nested(s, i + 2, inner + 1, outer);
        } else if pair_at(s, i, '*', '/') {
            if inner > 1 {
                lemma_nested(s, i + 2, (inner - 1) as nat, outer);
            }
        } else {
            lemma_nested(s, i + 1, inner, outer);
        }
    }
}

/// Everything else is stepped over one character at a time.
pub proof fn other_characters_stand_alone(s: Seq<char>, i: int)
    requires
        0 <= i < s.len(),
        s[i] != '\'' && s[i] != '"' && s[i] != '$',
        i + 1 < s.len() ==> !(s[i] == '-' && s[i + 1] == '-') && !(s[i] == '/' && s[i + 1] == '*'),
    ensures
        step(s, i) == i + 1,
{
}

}
