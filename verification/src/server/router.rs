//! Splits a simple-protocol query string into statements and decides, per
//! statement, whether the engine sees it. Clients open with session chatter
//! (`SET`, `BEGIN`, `SHOW transaction_isolation`) that the engine would reject,
//! and sessions are shared across connections, so `SET` must not reach it
//! anyway.

use vstd::prelude::*;

use crate::text::{
    chars_of, join_range, joined, lowered, same, split_words, string_of, to_lower, trim, trimmed,
    views, words,
};

verus! {

/// Where a statement goes. The canned ones answer client handshake probes
/// without touching the engine.
#[derive(Debug, Clone, PartialEq, Eq)]
pub enum Route {
    /// Accepted for client compatibility; respond with this command tag.
    NoOp(&'static str),
    /// One-row `SHOW transaction_isolation` answer.
    CannedTransactionIsolation,
    /// One-row `SHOW server_version` answer.
    CannedServerVersion,
    /// Everything real.
    Engine,
}

/// What a [`Route`] stands for.
pub enum RouteView {
    NoOp(Seq<char>),
    CannedTransactionIsolation,
    CannedServerVersion,
    Engine,
}

impl View for Route {
    type V = RouteView;

    open spec fn view(&self) -> RouteView {
        match *self {
            Route::NoOp(tag) => RouteView::NoOp(tag@),
            Route::CannedTransactionIsolation => RouteView::CannedTransactionIsolation,
            Route::CannedServerVersion => RouteView::CannedServerVersion,
            Route::Engine => RouteView::Engine,
        }
    }
}

/// Whether a character is a letter or a number, as Unicode has it.
pub uninterp spec fn alphanumeric(c: char) -> bool;

/// `char::is_alphanumeric`. Which characters those are is left unsaid.
#[verifier::external_body]
fn char_alphanumeric(c: char) -> (r: bool)
    ensures
        r == alphanumeric(c),
{
    c.is_alphanumeric()
}

/// Whether a character may stand in the tag of a dollar quote.
pub open spec fn tag_char(c: char) -> bool {
    ('a' <= c && c <= 'z') || ('A' <= c && c <= 'Z') || ('0' <= c && c <= '9') || c == '_' || (
    128 <= c as u32 && alphanumeric(c))
}

fn is_tag_char(c: char) -> (r: bool)
    ensures
        r == tag_char(c),
{
    let code: u32 = c as u32;
    if code < 128 {
        ('a' <= c && c <= 'z') || ('A' <= c && c <= 'Z') || ('0' <= c && c <= '9') || c == '_'
    } else {
        char_alphanumeric(c)
    }
}

/// Where a quoted run ends, from inside it on: just past the quote that closes
/// it, or at the end of the text. A doubled quote stands for itself.
pub open spec fn quoted_end(s: Seq<char>, quote: char, i: int) -> int
    decreases s.len() - i,
{
    if i >= s.len() {
        s.len() as int
    } else if s[i] == quote {
        if i + 1 < s.len() && s[i + 1] == quote {
            quoted_end(s, quote, i + 2)
        } else {
            i + 1
        }
    } else {
        quoted_end(s, quote, i + 1)
    }
}

/// Where a character next stands, from a position on.
pub open spec fn next_char(s: Seq<char>, c: char, i: int) -> Option<int>
    decreases s.len() - i,
{
    if i >= s.len() {
        None
    } else if s[i] == c {
        Some(i)
    } else {
        next_char(s, c, i + 1)
    }
}

/// Where a text next stands, from a position on.
pub open spec fn next_text(s: Seq<char>, part: Seq<char>, i: int) -> Option<int>
    decreases s.len() - i,
{
    if i + part.len() > s.len() || i >= s.len() {
        None
    } else if s.subrange(i, i + part.len()) == part {
        Some(i)
    } else {
        next_text(s, part, i + 1)
    }
}

/// Whether all characters from one position up to another may stand in a tag.
pub open spec fn is_tag(s: Seq<char>, from: int, to: int) -> bool {
    forall|k: int| from <= k < to ==> tag_char(#[trigger] s[k])
}

/// Where a dollar quote ends that a `$` opens: just past the tag that closes it,
/// or at the end of the text. A `$` that opens none is stepped over.
pub open spec fn dollar_end(s: Seq<char>, open: int) -> int {
    match next_char(s, '$', open + 1) {
        None => open + 1,
        Some(k) => if is_tag(s, open + 1, k) {
            let tag = s.subrange(open, k + 1);
            match next_text(s, tag, k + 1) {
                Some(m) => m + tag.len(),
                None => s.len() as int,
            }
        } else {
            open + 1
        },
    }
}

/// Where a line comment ends: at the next line break, or at the end of the text.
pub open spec fn line_end(s: Seq<char>, i: int) -> int {
    match next_char(s, '\n', i) {
        Some(k) => k,
        None => s.len() as int,
    }
}

/// Whether two characters stand at a position.
pub open spec fn pair_at(s: Seq<char>, i: int, a: char, b: char) -> bool {
    i + 1 < s.len() && s[i] == a && s[i + 1] == b
}

/// Where a block comment ends, by how many are open: comments nest.
pub open spec fn comment_end(s: Seq<char>, i: int, depth: nat) -> int
    decreases s.len() - i,
{
    if i >= s.len() {
        s.len() as int
    } else if pair_at(s, i, '/', '*') {
        comment_end(s, i + 2, depth + 1)
    } else if pair_at(s, i, '*', '/') {
        if depth <= 1 {
            i + 2
        } else {
            comment_end(s, i + 2, (depth - 1) as nat)
        }
    } else {
        comment_end(s, i + 1, depth)
    }
}

/// Where the scan goes on after what stands at a position.
pub open spec fn step(s: Seq<char>, i: int) -> int {
    let c = s[i];
    if c == '\'' || c == '"' {
        quoted_end(s, c, i + 1)
    } else if c == '$' {
        dollar_end(s, i)
    } else if pair_at(s, i, '-', '-') {
        line_end(s, i)
    } else if pair_at(s, i, '/', '*') {
        comment_end(s, i, 0)
    } else {
        i + 1
    }
}

/// A statement by its ends, without white space around it; none where nothing
/// is left of it.
pub open spec fn piece(s: Seq<char>, start: int, end: int) -> Seq<Seq<char>> {
    let t = trimmed(s.subrange(start, end));
    if t.len() == 0 {
        Seq::empty()
    } else {
        seq![t]
    }
}

/// The statements of a text, from a position on, of which the first began at
/// `start`.
pub open spec fn statements(s: Seq<char>, start: int, i: int) -> Seq<Seq<char>>
    decreases s.len() - i,
{
    if i >= s.len() {
        piece(s, start, s.len() as int)
    } else if s[i] == ';' {
        piece(s, start, i) + statements(s, i + 1, i + 1)
    } else {
        let j = step(s, i);
        statements(
            s,
            start,
            if i < j <= s.len() {
                j
            } else {
                i + 1
            },
        )
    }
}

pub(crate) proof fn lemma_quoted_end(s: Seq<char>, quote: char, i: int)
    requires
        0 <= i <= s.len(),
    ensures
        i <= quoted_end(s, quote, i) <= s.len(),
    decreases s.len() - i,
{
    if i < s.len() {
        if s[i] == quote {
            if i + 1 < s.len() && s[i + 1] == quote {
                lemma_quoted_end(s, quote, i + 2);
            }
        } else {
            lemma_quoted_end(s, quote, i + 1);
        }
    }
}

proof fn lemma_next_char(s: Seq<char>, c: char, i: int)
    requires
        0 <= i <= s.len(),
    ensures
        next_char(s, c, i) matches Some(k) ==> i <= k < s.len() && s[k] == c,
    decreases s.len() - i,
{
    if i < s.len() && s[i] != c {
        lemma_next_char(s, c, i + 1);
    }
}

proof fn lemma_next_text(s: Seq<char>, part: Seq<char>, i: int)
    requires
        0 <= i <= s.len(),
    ensures
        next_text(s, part, i) matches Some(k) ==> i <= k && k + part.len() <= s.len(),
    decreases s.len() - i,
{
    if i < s.len() && i + part.len() <= s.len() {
        lemma_next_text(s, part, i + 1);
    }
}

pub(crate) proof fn lemma_comment_end(s: Seq<char>, i: int, depth: nat)
    requires
        0 <= i <= s.len(),
    ensures
        i <= comment_end(s, i, depth) <= s.len(),
    decreases s.len() - i,
{
    if i < s.len() {
        if pair_at(s, i, '/', '*') {
            lemma_comment_end(s, i + 2, depth + 1);
        } else if pair_at(s, i, '*', '/') {
            if depth > 1 {
                lemma_comment_end(s, i + 2, (depth - 1) as nat);
            }
        } else {
            lemma_comment_end(s, i + 1, depth);
        }
    }
}

/// The scan always goes forward, and never beyond the end of the text.
pub proof fn the_scan_advances(s: Seq<char>, i: int)
    requires
        0 <= i < s.len(),
    ensures
        i < step(s, i) <= s.len(),
{
    let c = s[i];
    if c == '\'' || c == '"' {
        lemma_quoted_end(s, c, i + 1);
    } else if c == '$' {
        lemma_next_char(s, '$', i + 1);
        if next_char(s, '$', i + 1) is Some {
            let k = next_char(s, '$', i + 1)->0;
            lemma_next_text(s, s.subrange(i, k + 1), k + 1);
        }
    } else if pair_at(s, i, '-', '-') {
        lemma_next_char(s, '\n', i);
        assert(s[i] != '\n');
    } else if pair_at(s, i, '/', '*') {
        lemma_comment_end(s, i + 2, 1);
    }
}

/// Just past the quoted run that the quote at `open` begins.
pub fn skip_quoted(chars: &Vec<char>, open: usize) -> (r: usize)
    requires
        open < chars.len(),
    ensures
        r == quoted_end(chars@, chars@[open as int], open + 1),
        open < r <= chars.len(),
{
    let quote = chars[open];
    let n: usize = chars.len();
    let mut i: usize = open + 1;
    while i < n
        invariant
            open < i <= n == chars.len(),
            quote == chars@[open as int],
            quoted_end(chars@, quote, open + 1) == quoted_end(chars@, quote, i as int),
        decreases n - i,
    {
        if chars[i] == quote {
            if n - i > 1 && chars[i + 1] == quote {
                i += 2;
            } else {
                return i + 1;
            }
        } else {
            i += 1;
        }
    }
    i
}

/// Where a character next stands, from a position on.
pub fn find_next(chars: &Vec<char>, c: char, from: usize) -> (r: Option<usize>)
    requires
        from <= chars.len(),
    ensures
        match r {
            Some(k) => next_char(chars@, c, from as int) == Some(k as int) && from <= k
                < chars.len(),
            None => next_char(chars@, c, from as int) is None,
        },
{
    let mut i: usize = from;
    while i < chars.len()
        invariant
            from <= i <= chars.len(),
            next_char(chars@, c, from as int) == next_char(chars@, c, i as int),
        decreases chars.len() - i,
    {
        if chars[i] == c {
            return Some(i);
        }
        i += 1;
    }
    None
}

/// Where the text that stands between two positions next stands, from the
/// second on.
fn find_again(chars: &Vec<char>, open: usize, close: usize) -> (r: Option<usize>)
    requires
        open < close <= chars.len(),
    ensures
        ({
            let part = chars@.subrange(open as int, close as int);
            match r {
                Some(m) => next_text(chars@, part, close as int) == Some(m as int) && close <= m
                    && m + part.len() <= chars.len(),
                None => next_text(chars@, part, close as int) is None,
            }
        }),
{
    let ghost part = chars@.subrange(open as int, close as int);
    let len: usize = close - open;
    let n: usize = chars.len();
    let mut i: usize = close;
    while n - i >= len
        invariant
            open < close <= i <= n == chars.len(),
            len == close - open,
            part == chars@.subrange(open as int, close as int),
            next_text(chars@, part, close as int) == next_text(chars@, part, i as int),
        decreases n - i,
    {
        let mut j: usize = 0;
        assert(part =~= chars@.subrange(open as int, open + len));
        while j < len && chars[i + j] == chars[open + j]
            invariant
                j <= len,
                open + len <= n,
                i + len <= n == chars.len(),
                part == chars@.subrange(open as int, open + len),
                forall|k: int|
                    0 <= k < j ==> #[trigger] part[k] == chars@.subrange(i as int, i + len)[k],
            decreases len - j,
        {
            j += 1;
        }
        if j == len {
            assert(chars@.subrange(i as int, i + len) =~= part);
            return Some(i);
        }
        assert(chars@.subrange(i as int, i + len)[j as int] != part[j as int]);
        i += 1;
    }
    None
}

/// Just past the dollar quote that the `$` at `open` begins, or the next
/// position where it begins none.
pub fn skip_dollar_quoted(chars: &Vec<char>, open: usize) -> (r: usize)
    requires
        open < chars.len(),
    ensures
        r == dollar_end(chars@, open as int),
        open < r <= chars.len(),
{
    let close: usize = match find_next(chars, '$', open + 1) {
        Some(close) => close,
        None => {
            return open + 1;
        },
    };
    let mut i: usize = open + 1;
    while i < close
        invariant
            open < i <= close < chars.len(),
            next_char(chars@, '$', open + 1) == Some(close as int),
            forall|k: int| open < k < i ==> tag_char(#[trigger] chars@[k]),
        decreases close - i,
    {
        if !is_tag_char(chars[i]) {
            assert(!tag_char(chars@[i as int]));
            assert(!is_tag(chars@, open + 1, close as int));
            return open + 1;
        }
        i += 1;
    }
    match find_again(chars, open, close + 1) {
        Some(m) => m + (close + 1 - open),
        None => chars.len(),
    }
}

/// Just past the block comment that begins at `open`.
pub fn skip_block_comment(chars: &Vec<char>, open: usize) -> (r: usize)
    requires
        open < chars.len(),
        pair_at(chars@, open as int, '/', '*'),
    ensures
        r == comment_end(chars@, open as int, 0),
        open < r <= chars.len(),
{
    let n: usize = chars.len();
    let mut depth: usize = 1;
    let mut i: usize = open + 2;
    while i < n
        invariant
            open + 2 <= i <= n == chars.len(),
            1 <= depth <= i,
            comment_end(chars@, open as int, 0) == comment_end(chars@, i as int, depth as nat),
        decreases n - i,
    {
        if n - i > 1 && chars[i] == '/' && chars[i + 1] == '*' {
            depth += 1;
            i += 2;
        } else if n - i > 1 && chars[i] == '*' && chars[i + 1] == '/' {
            depth -= 1;
            i += 2;
            if depth == 0 {
                return i;
            }
        } else {
            i += 1;
        }
    }
    i
}

/// Adds the statement between two positions, where anything is left of it.
fn push_piece(chars: &Vec<char>, start: usize, end: usize, out: &mut Vec<String>)
    requires
        start <= end <= chars.len(),
    ensures
        views(final(out)@) == views(old(out)@) + piece(chars@, start as int, end as int),
{
    let ghost before = views(out@);
    let raw = string_of(chars, start, end);
    let text = trim(raw.as_str());
    if text.as_str().is_empty() {
        assert(before + Seq::<Seq<char>>::empty() =~= before);
    } else {
        out.push(text);
        assert(views(out@) =~= before + seq![text@]);
    }
}

/// Splits on top-level `;`, honoring `'...'` (with `''` escapes), `"..."`
/// identifiers, `$tag$...$tag$` dollar quotes, `--` line comments, and nested
/// `/* */` block comments. Statements keep their original text: writing tokens
/// out anew would risk mangling `MEANS '...'` literals.
pub fn split_statements(input: &str) -> (r: Vec<String>)
    ensures
        views(r@) == statements(input@, 0, 0),
{
    let chars = chars_of(input);
    let n: usize = chars.len();
    let ghost s = input@;
    let mut out: Vec<String> = Vec::new();
    let mut start: usize = 0;
    let mut i: usize = 0;
    assert(views(out@) + statements(s, 0, 0) =~= statements(s, 0, 0));
    while i < n
        invariant
            start <= i <= n == chars.len(),
            chars@ == s,
            s == input@,
            statements(s, 0, 0) == views(out@) + statements(s, start as int, i as int),
        decreases n - i,
    {
        let c = chars[i];
        proof {
            the_scan_advances(s, i as int);
        }
        if c == ';' {
            let ghost before = views(out@);
            push_piece(&chars, start, i, &mut out);
            assert(before + (piece(s, start as int, i as int) + statements(s, i + 1, i + 1))
                =~= views(out@) + statements(s, i + 1, i + 1));
            start = i + 1;
            i += 1;
        } else if c == '\'' || c == '"' {
            i = skip_quoted(&chars, i);
        } else if c == '$' {
            i = skip_dollar_quoted(&chars, i);
        } else if c == '-' && n - i > 1 && chars[i + 1] == '-' {
            i =
            match find_next(&chars, '\n', i) {
                Some(k) => k,
                None => n,
            };
        } else if c == '/' && n - i > 1 && chars[i + 1] == '*' {
            i = skip_block_comment(&chars, i);
        } else {
            i += 1;
        }
    }
    let ghost before = views(out@);
    push_piece(&chars, start, n, &mut out);
    out
}

/// Where a statement goes, by its words in lower case.
pub open spec fn route_of(statement: Seq<char>) -> RouteView {
    let w = words(lowered(statement));
    if w.len() == 0 {
        RouteView::Engine
    } else if w[0] == "set"@ {
        RouteView::NoOp("SET"@)
    } else if w[0] == "begin"@ || w[0] == "start"@ {
        RouteView::NoOp("BEGIN"@)
    } else if w[0] == "commit"@ || w[0] == "end"@ {
        RouteView::NoOp("COMMIT"@)
    } else if w[0] == "rollback"@ || w[0] == "abort"@ {
        RouteView::NoOp("ROLLBACK"@)
    } else if w[0] == "discard"@ {
        RouteView::NoOp("DISCARD"@)
    } else if w[0] == "reset"@ {
        RouteView::NoOp("RESET"@)
    } else if w[0] == "show"@ {
        let what = joined(w.subrange(1, w.len() as int), " "@);
        if what == "transaction_isolation"@ || what == "transaction isolation level"@ {
            RouteView::CannedTransactionIsolation
        } else if what == "server_version"@ {
            RouteView::CannedServerVersion
        } else {
            RouteView::Engine
        }
    } else {
        RouteView::Engine
    }
}

/// Decides where a statement goes.
pub fn classify(statement: &str) -> (r: Route)
    ensures
        r@ == route_of(statement@),
{
    let lower = to_lower(statement);
    let list = split_words(lower.as_str());
    assert(views(list@).len() == list@.len());
    if list.len() == 0 {
        return Route::Engine;
    }
    let first = list[0].as_str();
    assert(views(list@)[0] == first@);
    if same(first, "set") {
        Route::NoOp("SET")
    } else if same(first, "begin") || same(first, "start") {
        Route::NoOp("BEGIN")
    } else if same(first, "commit") || same(first, "end") {
        Route::NoOp("COMMIT")
    } else if same(first, "rollback") || same(first, "abort") {
        Route::NoOp("ROLLBACK")
    } else if same(first, "discard") {
        Route::NoOp("DISCARD")
    } else if same(first, "reset") {
        Route::NoOp("RESET")
    } else if same(first, "show") {
        let what = join_range(&list, 1, list.len(), " ");
        if same(what.as_str(), "transaction_isolation") || same(
            what.as_str(),
            "transaction isolation level",
        ) {
            Route::CannedTransactionIsolation
        } else if same(what.as_str(), "server_version") {
            Route::CannedServerVersion
        } else {
            Route::Engine
        }
    } else {
        Route::Engine
    }
}

proof fn lemma_single(s: Seq<char>, i: int)
    requires
        0 <= i <= s.len(),
        forall|k: int| 0 <= k < s.len() ==> #[trigger] s[k] != ';',
    ensures
        statements(s, 0, i) == piece(s, 0, s.len() as int),
    decreases s.len() - i,
{
    if i < s.len() {
        the_scan_advances(s, i);
        lemma_single(s, step(s, i));
    }
}

/// A text without a semicolon is one statement, or none where it is all white
/// space.
pub proof fn without_a_semicolon_there_is_one_statement(s: Seq<char>)
    requires
        forall|k: int| 0 <= k < s.len() ==> #[trigger] s[k] != ';',
    ensures
        trimmed(s).len() > 0 ==> statements(s, 0, 0) == seq![trimmed(s)],
        trimmed(s).len() == 0 ==> statements(s, 0, 0) == Seq::<Seq<char>>::empty(),
{
    lemma_single(s, 0);
    assert(s.subrange(0, s.len() as int) =~= s);
}

/// A statement that is answered by a tag is answered by its own first word in upper
/// case, or by that of the word it stands for; nothing behind the first word matters.
pub proof fn a_session_word_is_answered_by_itself(s: Seq<char>, other: Seq<char>)
    requires
        words(lowered(s)).len() > 0,
        words(lowered(other)).len() > 0,
        words(lowered(s))[0] == words(lowered(other))[0],
    ensures
        ({
            let first = words(lowered(s))[0];
            &&& route_of(s) matches RouteView::NoOp(tag) ==> lowered(tag) == first || (first
                == "start"@ && tag == "BEGIN"@) || (first == "end"@ && tag == "COMMIT"@) || (first
                == "abort"@ && tag == "ROLLBACK"@)
            &&& first == "set"@ || first == "begin"@ || first == "start"@ || first == "commit"@
                || first == "end"@ || first == "rollback"@ || first == "abort"@ || first
                == "discard"@ || first == "reset"@ <==> route_of(s) is NoOp
            &&& route_of(s) is NoOp ==> route_of(other) == route_of(s)
            &&& first != "show"@ && !(route_of(s) is NoOp) ==> route_of(s) is Engine
        }),
{
    reveal_strlit("set");
    reveal_strlit("SET");
    reveal_strlit("begin");
    reveal_strlit("BEGIN");
    reveal_strlit("commit");
    reveal_strlit("COMMIT");
    reveal_strlit("rollback");
    reveal_strlit("ROLLBACK");
    reveal_strlit("discard");
    reveal_strlit("DISCARD");
    reveal_strlit("reset");
    reveal_strlit("RESET");
    assert(lowered("SET"@) =~= "set"@);
    assert(lowered("BEGIN"@) =~= "begin"@);
    assert(lowered("COMMIT"@) =~= "commit"@);
    assert(lowered("ROLLBACK"@) =~= "rollback"@);
    assert(lowered("DISCARD"@) =~= "discard"@);
    assert(lowered("RESET"@) =~= "reset"@);
}

/// What a handshake asks to be shown is answered without the engine, however it is
/// spaced and in whichever case.
pub proof fn a_handshake_is_answered(s: Seq<char>)
    ensures
        words(lowered(s)) == seq!["show"@, "server_version"@] ==> route_of(s) is CannedServerVersion,
        words(lowered(s)) == seq!["show"@, "transaction_isolation"@] ==> route_of(
            s,
        ) is CannedTransactionIsolation,
        words(lowered(s)) == seq!["show"@, "transaction"@, "isolation"@, "level"@] ==> route_of(
            s,
        ) is CannedTransactionIsolation,
        route_of(s) is CannedServerVersion || route_of(s) is CannedTransactionIsolation ==> words(
            lowered(s),
        ).len() > 0 && words(lowered(s))[0] == "show"@,
{
    let w = words(lowered(s));
    lemma_other_than_show();
    reveal_strlit("server_version");
    reveal_strlit("transaction_isolation");
    reveal_strlit("transaction isolation level");
    assert("server_version"@[0] == 's' && "transaction_isolation"@[0] == 't');
    assert("transaction isolation level"@[0] == 't');
    if w == seq!["show"@, "server_version"@] {
        assert(w.subrange(1, w.len() as int) =~= seq!["server_version"@]);
    }
    if w == seq!["show"@, "transaction_isolation"@] {
        assert(w.subrange(1, w.len() as int) =~= seq!["transaction_isolation"@]);
    }
    if w == seq!["show"@, "transaction"@, "isolation"@, "level"@] {
        let rest = w.subrange(1, w.len() as int);
        let two = rest.drop_last();
        assert(rest.len() == 3 && two.len() == 2);
        assert(two.drop_last().len() == 1);
        assert(joined(two.drop_last(), " "@) == "transaction"@);
        assert(joined(two, " "@) == "transaction"@ + " "@ + "isolation"@);
        assert(joined(rest, " "@) == "transaction"@ + " "@ + "isolation"@ + " "@ + "level"@);
        reveal_strlit("transaction");
        reveal_strlit("isolation");
        reveal_strlit("level");
        reveal_strlit(" ");
        assert(joined(rest, " "@) =~= "transaction isolation level"@);
    }
}

proof fn lemma_other_than_show()
    ensures
        "show"@ != "set"@ && "show"@ != "begin"@ && "show"@ != "start"@ && "show"@ != "commit"@,
        "show"@ != "end"@ && "show"@ != "rollback"@ && "show"@ != "abort"@ && "show"@
            != "discard"@ && "show"@ != "reset"@,
{
    reveal_strlit("show");
    reveal_strlit("set");
    reveal_strlit("begin");
    reveal_strlit("start");
    reveal_strlit("commit");
    reveal_strlit("end");
    reveal_strlit("rollback");
    reveal_strlit("abort");
    reveal_strlit("discard");
    reveal_strlit("reset");
    assert("show"@.len() == 4);
    assert("set"@.len() == 3 && "begin"@.len() == 5 && "start"@.len() == 5);
    assert("commit"@.len() == 6 && "end"@.len() == 3 && "rollback"@.len() == 8);
    assert("abort"@.len() == 5 && "discard"@.len() == 7 && "reset"@.len() == 5);
}

}
