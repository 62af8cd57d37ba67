//! Statements that define something: `CREATE SEMANTIC INDEX ON table(column)`,
//! and the types of extracted fields, as they are declared:
//!
//! - `TEXT`, `INT`, `REAL` and `BOOL`;
//! - `REAL CHECK (a..b)`, a number within bounds;
//! - `ONEOF(a, b, c)` and `LEVEL(a, b, c)`, one of some variants;
//! - `T[]`, a list of any of these.
//!
//! Keywords are read whatever their case.

use vstd::prelude::*;

use crate::json::{parse_real, real_parsed};
use crate::number::Double;
use crate::server::jobs::parse::{a_keyword_is_a_whole_word, after_keyword, strip_keyword};
use crate::text::{
    chars_of, drop_leading, drop_trailing, find_char, first_of, is_space, joined, lower, lowered,
    same_ignore_case, same_ignoring_case, string_of, trim, trimmed, trimming_leaves_the_core, views,
    Class,
};
use crate::types::{FieldType, FieldTypeView};

verus! {

pub const UNKNOWN_FIELD_TYPE: &'static str = "unknown field type ";

/// The parts of a text between the places where a character stands.
pub open spec fn split_on(s: Seq<char>, c: char) -> Seq<Seq<char>>
    decreases s.len(),
{
    match first_of(s, c) {
        Some(i) => if 0 <= i < s.len() {
            seq![s.take(i)] + split_on(s.skip(i + 1), c)
        } else {
            seq![s]
        },
        None => seq![s],
    }
}

/// The variants that a list names; none where one of them has no name.
pub open spec fn variants_of(s: Seq<char>) -> Option<Seq<Seq<char>>> {
    let names = split_on(s, ',').map_values(|part: Seq<char>| trimmed(part));
    if forall|i: int| 0 <= i < names.len() ==> (#[trigger] names[i]).len() > 0 {
        Some(names)
    } else {
        None
    }
}

/// What stands in parentheses behind a keyword that a text starts with.
pub open spec fn in_parentheses(t: Seq<char>, keyword: Seq<char>) -> Option<Seq<char>> {
    let n = keyword.len() as int;
    if t.len() < n || lowered(t.take(n)) != lowered(keyword) {
        None
    } else {
        let rest = trimmed(t.skip(n));
        if rest.len() >= 2 && rest[0] == '(' && rest.last() == ')' {
            Some(rest.subrange(1, rest.len() - 1))
        } else {
            None
        }
    }
}

/// Where two dots first stand side by side, from a position on.
pub open spec fn dots_from(s: Seq<char>, i: int) -> Option<int>
    decreases s.len() - i,
{
    if i + 1 >= s.len() {
        None
    } else if s[i] == '.' && s[i + 1] == '.' {
        Some(i)
    } else {
        dots_from(s, i + 1)
    }
}

/// The bounds that a range gives.
pub open spec fn bounds_of(s: Seq<char>) -> Option<FieldTypeView> {
    match dots_from(s, 0) {
        None => None,
        Some(i) => match (real_parsed(trimmed(s.take(i))), real_parsed(trimmed(s.skip(i + 2)))) {
            (Some(min), Some(max)) => Some(
                FieldTypeView::RealBounded {
                    min: Double { bits: min },
                    max: Double { bits: max },
                },
            ),
            _ => None,
        },
    }
}

/// The type that a text without white space around it declares, where it is no
/// list.
pub open spec fn single_type(t: Seq<char>) -> Option<FieldTypeView> {
    if same_ignoring_case(t, "text"@) {
        Some(FieldTypeView::Text)
    } else if same_ignoring_case(t, "int"@) {
        Some(FieldTypeView::Int)
    } else if same_ignoring_case(t, "real"@) {
        Some(FieldTypeView::Real)
    } else if same_ignoring_case(t, "bool"@) {
        Some(FieldTypeView::Bool)
    } else {
        match in_parentheses(t, "oneof"@) {
            Some(list) => match variants_of(list) {
                Some(names) => Some(FieldTypeView::OneOf(names)),
                None => None,
            },
            None => match in_parentheses(t, "level"@) {
                Some(list) => match variants_of(list) {
                    Some(names) => Some(FieldTypeView::Level(names)),
                    None => None,
                },
                None => match after_keyword(t, "real"@) {
                    Some(rest) => match in_parentheses(rest, "check"@) {
                        Some(range) => bounds_of(range),
                        None => None,
                    },
                    None => None,
                },
            },
        }
    }
}

/// The type that a text declares.
pub open spec fn declared_type(s: Seq<char>) -> Option<FieldTypeView>
    decreases s.len(),
{
    proof {
        lemma_trimmed_len(s);
    }
    let t = trimmed(s);
    let n = t.len() as int;
    if n >= 2 && t[n - 2] == '[' && t[n - 1] == ']' {
        match declared_type(t.take(n - 2)) {
            Some(item) => Some(FieldTypeView::List(Box::new(item))),
            None => None,
        }
    } else {
        single_type(t)
    }
}

proof fn lemma_leading_len(s: Seq<char>)
    ensures
        drop_leading(s, Class::Space).len() <= s.len(),
    decreases s.len(),
{
    if s.len() > 0 {
        lemma_leading_len(s.drop_first());
    }
}

proof fn lemma_trailing_len(s: Seq<char>)
    ensures
        drop_trailing(s, Class::Space).len() <= s.len(),
    decreases s.len(),
{
    if s.len() > 0 {
        lemma_trailing_len(s.drop_last());
    }
}

pub proof fn lemma_trimmed_len(s: Seq<char>)
    ensures
        trimmed(s).len() <= s.len(),
{
    lemma_leading_len(s);
    lemma_trailing_len(drop_leading(s, Class::Space));
}

proof fn lemma_found(s: Seq<char>, c: char)
    ensures
        first_of(s, c) matches Some(i) ==> 0 <= i < s.len() && s[i] == c,
    decreases s.len(),
{
    if s.len() > 0 {
        lemma_found(s.drop_first(), c);
    }
}

/// Reads the variants of a list.
fn read_variants(list: &str) -> (r: Option<Vec<String>>)
    ensures
        match r {
            Some(names) => variants_of(list@) == Some(views(names@)),
            None => variants_of(list@) is None,
        },
{
    let chars = chars_of(list);
    let n: usize = chars.len();
    let ghost s = list@;
    let ghost parts = split_on(s, ',');
    let ghost want = parts.map_values(|part: Seq<char>| trimmed(part));
    let mut names: Vec<String> = Vec::new();
    let mut full: bool = true;
    let mut start: usize = 0;
    let mut more: bool = true;
    let ghost mut at: int = 0;
    assert(s.skip(0) =~= s);
    assert(parts.skip(0) =~= parts);
    while more
        invariant
            start <= n == chars.len(),
            chars@ == s,
            parts == split_on(s, ','),
            want == parts.map_values(|part: Seq<char>| trimmed(part)),
            0 <= at <= parts.len(),
            more ==> split_on(s.skip(start as int), ',') == parts.skip(at),
            !more ==> at == parts.len(),
            views(names@) == want.take(at),
            full == (forall|i: int| 0 <= i < at ==> (#[trigger] want[i]).len() > 0),
        decreases n - start + if more {
            1int
        } else {
            0
        },
    {
        let ghost rest = s.skip(start as int);
        proof {
            lemma_found(rest, ',');
            assert(split_on(rest, ',').len() >= 1);
            assert(parts.skip(at).len() == parts.len() - at);
        }
        let end: usize = match find_char(&chars, start, ',') {
            Some(i) => i,
            None => {
                more = false;
                n
            },
        };
        let raw = string_of(&chars, start, end);
        let name = trim(raw.as_str());
        let ghost before = views(names@);
        proof {
            assert(raw@ =~= rest.take(end - start));
            assert(split_on(rest, ',')[0] == raw@);
            assert(parts.skip(at)[0] == parts[at]);
            assert(want[at] == name@);
        }
        if name.as_str().is_empty() {
            full = false;
        }
        names.push(name);
        assert(views(names@) =~= before.push(want[at]));
        assert(want.take(at + 1) =~= before.push(want[at]));
        if more {
            assert(rest.skip(end - start + 1) =~= s.skip(end + 1));
            assert(parts.skip(at + 1) =~= split_on(s.skip(end + 1), ',')) by {
                let tail = split_on(rest, ',');
                assert(tail.skip(1) =~= split_on(s.skip(end + 1), ','));
                assert(parts.skip(at).skip(1) =~= parts.skip(at + 1));
            }
            start = end + 1;
        } else {
            assert(parts.skip(at).len() == 1);
        }
        proof {
            at = at + 1;
        }
    }
    assert(want.take(at) =~= want);
    if full {
        Some(names)
    } else {
        None
    }
}

/// What stands in parentheses behind a keyword.
fn read_parentheses(text: &str, keyword: &str) -> (r: Option<String>)
    ensures
        crate::text::opt_view(r) == in_parentheses(text@, keyword@),
{
    let chars = chars_of(text);
    let n: usize = chars.len();
    let k: usize = chars_of(keyword).len();
    if n < k {
        return None;
    }
    let head = string_of(&chars, 0, k);
    assert(head@ =~= text@.take(k as int));
    if !same_ignore_case(head.as_str(), keyword) {
        return None;
    }
    let tail = string_of(&chars, k, n);
    assert(tail@ =~= text@.skip(k as int));
    let rest = trim(tail.as_str());
    let inner = chars_of(rest.as_str());
    let m: usize = inner.len();
    if m >= 2 && inner[0] == '(' && inner[m - 1] == ')' {
        Some(string_of(&inner, 1, m - 1))
    } else {
        None
    }
}

/// Reads the bounds of a range.
fn read_bounds(range: &str) -> (r: Option<FieldType>)
    ensures
        match r {
            Some(ty) => bounds_of(range@) == Some(ty@),
            None => bounds_of(range@) is None,
        },
{
    let chars = chars_of(range);
    let n: usize = chars.len();
    let ghost s = range@;
    let mut i: usize = 0;
    while n - i > 1 && !(chars[i] == '.' && chars[i + 1] == '.')
        invariant
            i <= n == chars.len(),
            chars@ == s,
            dots_from(s, 0) == dots_from(s, i as int),
        decreases n - i,
    {
        i += 1;
    }
    if n - i <= 1 {
        return None;
    }
    let low = string_of(&chars, 0, i);
    let high = string_of(&chars, i + 2, n);
    assert(low@ =~= s.take(i as int));
    assert(high@ =~= s.skip(i + 2));
    let low = trim(low.as_str());
    let high = trim(high.as_str());
    match parse_real(low.as_str()) {
        None => None,
        Some(min) => match parse_real(high.as_str()) {
            None => None,
            Some(max) => Some(FieldType::RealBounded { min, max }),
        },
    }
}

/// Reads a type that is no list.
fn read_single(text: &str) -> (r: Option<FieldType>)
    ensures
        match r {
            Some(ty) => single_type(text@) == Some(ty@),
            None => single_type(text@) is None,
        },
{
    if same_ignore_case(text, "text") {
        return Some(FieldType::Text);
    }
    if same_ignore_case(text, "int") {
        return Some(FieldType::Int);
    }
    if same_ignore_case(text, "real") {
        return Some(FieldType::Real);
    }
    if same_ignore_case(text, "bool") {
        return Some(FieldType::Bool);
    }
    if let Some(list) = read_parentheses(text, "oneof") {
        return match read_variants(list.as_str()) {
            Some(names) => Some(FieldType::OneOf(names)),
            None => None,
        };
    }
    if let Some(list) = read_parentheses(text, "level") {
        return match read_variants(list.as_str()) {
            Some(names) => Some(FieldType::Level(names)),
            None => None,
        };
    }
    match strip_keyword(text, "real") {
        Some(rest) => match read_parentheses(rest.as_str(), "check") {
            Some(range) => read_bounds(range.as_str()),
            None => None,
        },
        None => None,
    }
}

/// Reads a type.
fn read_type(text: &str) -> (r: Option<FieldType>)
    ensures
        match r {
            Some(ty) => declared_type(text@) == Some(ty@),
            None => declared_type(text@) is None,
        },
    decreases text@.len(),
{
    let whole = trim(text);
    proof {
        lemma_trimmed_len(text@);
    }
    let chars = chars_of(whole.as_str());
    let n: usize = chars.len();
    if n >= 2 && chars[n - 2] == '[' && chars[n - 1] == ']' {
        let item = string_of(&chars, 0, n - 2);
        assert(item@ =~= trimmed(text@).take(n - 2));
        match read_type(item.as_str()) {
            Some(ty) => Some(FieldType::List(Box::new(ty))),
            None => None,
        }
    } else {
        read_single(whole.as_str())
    }
}

/// The type that the declaration of a field gives it, or why it gives none.
pub fn parse_field_type_str(spec: &str) -> (r: Result<FieldType, String>)
    ensures
        match r {
            Ok(ty) => declared_type(spec@) == Some(ty@),
            Err(message) => declared_type(spec@) is None && message@ == UNKNOWN_FIELD_TYPE@
                + spec@,
        },
{
    match read_type(spec) {
        Some(ty) => Ok(ty),
        None => Err(UNKNOWN_FIELD_TYPE.to_owned().concat(spec)),
    }
}

/// The table and the column that `CREATE SEMANTIC INDEX ON table(column)` names.
pub open spec fn index_target(statement: Seq<char>) -> Option<(Seq<char>, Seq<char>)> {
    match after_keyword(statement, "create"@) {
        None => None,
        Some(a) => match after_keyword(a, "semantic"@) {
            None => None,
            Some(b) => match after_keyword(b, "index"@) {
                None => None,
                Some(c) => match after_keyword(c, "on"@) {
                    None => None,
                    Some(rest) => match first_of(rest, '(') {
                        Some(i) => if rest.last() == ')' {
                            Some(
                                (
                                    trimmed(rest.take(i)),
                                    trimmed(rest.subrange(i + 1, rest.len() - 1)),
                                ),
                            )
                        } else {
                            None
                        },
                        None => None,
                    },
                },
            },
        },
    }
}

/// The table and the column whose index a statement creates, if this is one.
pub fn parse_create_index(statement: &str) -> (r: Option<(String, String)>)
    ensures
        match r {
            Some((table, column)) => index_target(statement@) == Some((table@, column@)),
            None => index_target(statement@) is None,
        },
{
    let rest = match strip_keyword(statement, "create") {
        None => {
            return None;
        },
        Some(a) => match strip_keyword(a.as_str(), "semantic") {
            None => {
                return None;
            },
            Some(b) => match strip_keyword(b.as_str(), "index") {
                None => {
                    return None;
                },
                Some(c) => match strip_keyword(c.as_str(), "on") {
                    None => {
                        return None;
                    },
                    Some(rest) => rest,
                },
            },
        },
    };
    let chars = chars_of(rest.as_str());
    let n: usize = chars.len();
    assert(chars@.skip(0) =~= rest@);
    match find_char(&chars, 0, '(') {
        None => None,
        Some(i) => {
            proof {
                lemma_found(rest@, '(');
            }
            if chars[n - 1] != ')' {
                return None;
            }
            let table = string_of(&chars, 0, i);
            let column = string_of(&chars, i + 1, n - 1);
            assert(table@ =~= rest@.take(i as int));
            Some((trim(table.as_str()), trim(column.as_str())))
        },
    }
}

/// A list is split where its separator stands, and nowhere else: the parts joined by
/// the separator are the text, and no part holds it.
pub proof fn a_list_is_split_at_its_separators(s: Seq<char>, c: char, k: int)
    ensures
        joined(split_on(s, c), seq![c]) == s,
        split_on(s, c).len() > 0,
        0 <= k < split_on(s, c).len() ==> !split_on(s, c)[k].contains(c),
    decreases s.len(),
{
    lemma_found(s, c);
    lemma_not_before(s, c);
    match first_of(s, c) {
        Some(i) => {
            let rest = split_on(s.skip(i + 1), c);
            a_list_is_split_at_its_separators(s.skip(i + 1), c, k - 1);
            lemma_joined_from_the_front(s.take(i), rest, seq![c]);
            assert(s.take(i) + seq![c] + s.skip(i + 1) =~= s);
            let all = seq![s.take(i)] + rest;
            if 0 < k < all.len() {
                assert(all[k] == rest[k - 1]);
            }
        },
        None => {
            assert(joined(seq![s], seq![c]) == s);
        },
    }
}

proof fn lemma_not_before(s: Seq<char>, c: char)
    ensures
        first_of(s, c) matches Some(i) ==> !s.take(i).contains(c),
        first_of(s, c) is None ==> !s.contains(c),
    decreases s.len(),
{
    lemma_found(s, c);
    if s.len() > 0 && s[0] != c {
        let rest = s.drop_first();
        lemma_not_before(rest, c);
        lemma_found(rest, c);
        if s.contains(c) {
            let k = s.index_of(c);
            assert(rest[k - 1] == c);
        }
        if let Some(i) = first_of(s, c) {
            if s.take(i).contains(c) {
                let k = s.take(i).index_of(c);
                assert(s[k] == c);
                assert(rest.take(i - 1)[k - 1] == c);
            }
        }
    }
}

proof fn lemma_joined_from_the_front(first: Seq<char>, rest: Seq<Seq<char>>, sep: Seq<char>)
    requires
        rest.len() > 0,
    ensures
        joined(seq![first] + rest, sep) == first + sep + joined(rest, sep),
    decreases rest.len(),
{
    let all = seq![first] + rest;
    assert(all.drop_last() =~= seq![first] + rest.drop_last());
    if rest.len() == 1 {
        assert(all.drop_last() =~= seq![first]);
        assert(joined(seq![first], sep) == first);
        assert(joined(rest, sep) == rest.last());
    } else {
        lemma_joined_from_the_front(first, rest.drop_last(), sep);
        assert(all.last() == rest.last());
        assert(first + sep + joined(rest.drop_last(), sep) + sep + rest.last() =~= first + sep + (
        joined(rest.drop_last(), sep) + sep + rest.last()));
    }
}

/// Every variant has a name of its own in the list: as many as the list has parts,
/// each the part without white space around it, and none of them empty.
pub proof fn every_part_names_a_variant(s: Seq<char>, k: int)
    ensures
        variants_of(s) matches Some(names) ==> names.len() == split_on(s, ',').len() && (0 <= k
            < names.len() ==> names[k] == trimmed(split_on(s, ',')[k]) && names[k].len() > 0),
        0 <= k < split_on(s, ',').len() && trimmed(split_on(s, ',')[k]).len() == 0 ==> variants_of(
            s,
        ) is None,
{
    let names = split_on(s, ',').map_values(|part: Seq<char>| trimmed(part));
    if 0 <= k < names.len() {
        assert(names[k] == trimmed(split_on(s, ',')[k]));
    }
}

proof fn lemma_solid(s: Seq<char>)
    requires
        s.len() > 0,
        !is_space(s[0]),
        !is_space(s.last()),
    ensures
        trimmed(s) == s,
{
    let none = Seq::<char>::empty();
    trimming_leaves_the_core(none, s, none, Class::Space);
    assert(none + s + none =~= s);
}

/// What stands in parentheses behind a keyword is all that stands between them.
pub proof fn all_between_the_parentheses_is_read(
    word: Seq<char>,
    keyword: Seq<char>,
    inner: Seq<char>,
)
    requires
        lowered(word) == lowered(keyword),
    ensures
        in_parentheses(word + seq!['('] + inner + seq![')'], keyword) == Some(inner),
{
    let t = word + seq!['('] + inner + seq![')'];
    let n = word.len() as int;
    assert(lowered(word).len() == n && lowered(keyword).len() == keyword.len());
    assert(t.take(n) =~= word);
    let rest = t.skip(n);
    assert(rest =~= seq!['('] + inner + seq![')']);
    lemma_solid(rest);
    assert(rest.subrange(1, rest.len() - 1) =~= inner);
}

/// A range gives the number before its dots as the least and the one behind them as
/// the greatest.
pub proof fn a_range_gives_its_two_ends(a: Seq<char>, b: Seq<char>)
    requires
        !a.contains('.') || forall|i: int|
            0 <= i < a.len() && #[trigger] a[i] == '.' ==> i + 1 < a.len() && a[i + 1] != '.',
    ensures
        ({
            let (least, most) = (real_parsed(trimmed(a)), real_parsed(trimmed(b)));
            &&& bounds_of(a + seq!['.', '.'] + b) is Some <==> least is Some && most is Some
            &&& bounds_of(a + seq!['.', '.'] + b) matches Some(ty) ==> ty
                == (FieldTypeView::RealBounded {
                min: Double { bits: least->0 },
                max: Double { bits: most->0 },
            })
        }),
{
    let s = a + seq!['.', '.'] + b;
    assert(s.take(a.len() as int) =~= a);
    lemma_dots(a, s, 0);
    let i = a.len() as int;
    assert(s.skip(i + 2) =~= b);
}

proof fn lemma_dots(a: Seq<char>, s: Seq<char>, i: int)
    requires
        !a.contains('.') || forall|k: int|
            0 <= k < a.len() && #[trigger] a[k] == '.' ==> k + 1 < a.len() && a[k + 1] != '.',
        s.len() >= a.len() + 2,
        s.take(a.len() as int) == a,
        s[a.len() as int] == '.' && s[a.len() + 1int] == '.',
        0 <= i <= a.len(),
    ensures
        dots_from(s, i) == Some(a.len() as int),
    decreases a.len() - i,
{
    if i < a.len() {
        assert(s[i] == a[i]);
        if s[i] == '.' {
            assert(a.contains('.'));
            assert(s[i + 1] == a[i + 1]);
        }
        lemma_dots(a, s, i + 1);
    }
}

/// A type is declared by its name, in whichever case.
pub proof fn a_type_is_declared_by_its_name(t: Seq<char>)
    ensures
        same_ignoring_case(t, "text"@) ==> declared_type(t) == Some(FieldTypeView::Text),
        same_ignoring_case(t, "int"@) ==> declared_type(t) == Some(FieldTypeView::Int),
        same_ignoring_case(t, "real"@) ==> declared_type(t) == Some(FieldTypeView::Real),
        same_ignoring_case(t, "bool"@) ==> declared_type(t) == Some(FieldTypeView::Bool),
{
    reveal_strlit("text");
    reveal_strlit("int");
    reveal_strlit("real");
    reveal_strlit("bool");
    let l = lowered(t);
    assert(lowered("text"@) =~= "text"@ && lowered("int"@) =~= "int"@);
    assert(lowered("real"@) =~= "real"@ && lowered("bool"@) =~= "bool"@);
    assert("text"@[0] == 't' && "int"@[0] == 'i' && "real"@[0] == 'r' && "bool"@[0] == 'b');
    assert("text"@[3] == 't' && "int"@[2] == 't' && "real"@[3] == 'l' && "bool"@[3] == 'l');
    if same_ignoring_case(t, "text"@) || same_ignoring_case(t, "int"@) || same_ignoring_case(
        t,
        "real"@,
    ) || same_ignoring_case(t, "bool"@) {
        assert(t.len() == l.len());
        assert(l[0] == lower(t[0]));
        assert(l.last() == lower(t.last()));
        lemma_solid(t);
    }
}

/// A list is declared by the type of its items with brackets behind it.
pub proof fn a_list_is_declared_by_its_items(t: Seq<char>)
    requires
        t.len() > 0,
        !is_space(t[0]),
    ensures
        declared_type(t + seq!['[', ']']) is Some <==> declared_type(t) is Some,
        declared_type(t) matches Some(item) ==> declared_type(t + seq!['[', ']']) == Some(
            FieldTypeView::List(Box::new(item)),
        ),
{
    let s = t + seq!['[', ']'];
    lemma_solid(s);
    assert(s.take(s.len() - 2) =~= t);
}

/// An index is created over the table and the column that the statement names, and
/// over no others.
pub proof fn an_index_is_created_over_what_is_named(
    create: Seq<char>,
    semantic: Seq<char>,
    index: Seq<char>,
    on: Seq<char>,
    table: Seq<char>,
    column: Seq<char>,
)
    requires
        lowered(create) == lowered("create"@),
        lowered(semantic) == lowered("semantic"@),
        lowered(index) == lowered("index"@),
        lowered(on) == lowered("on"@),
        table.len() > 0 && !is_space(table[0]) && !is_space(table.last()),
        column.len() > 0 && !is_space(column[0]) && !is_space(column.last()),
        !table.contains('('),
    ensures
        index_target(
            create + seq![' '] + (semantic + seq![' '] + (index + seq![' '] + (on + seq![' '] + (
            table + seq!['('] + column + seq![')'])))),
        ) == Some((table, column)),
{
    reveal_strlit("create");
    reveal_strlit("semantic");
    reveal_strlit("index");
    reveal_strlit("on");
    let target = table + seq!['('] + column + seq![')'];
    lemma_solid(target);
    lemma_solid(table);
    lemma_solid(column);
    assert(lowered("create"@)[0] == 'c' && lowered("semantic"@)[0] == 's');
    assert(lowered("index"@)[0] == 'i' && lowered("on"@)[0] == 'o');
    lemma_word_stands(on, "on"@, target);
    let a = on + seq![' '] + target;
    lemma_word_stands(index, "index"@, a);
    let b = index + seq![' '] + a;
    lemma_word_stands(semantic, "semantic"@, b);
    let c = semantic + seq![' '] + b;
    lemma_word_stands(create, "create"@, c);
    lemma_first_place(table, column + seq![')'], '(');
    assert(table + seq!['('] + (column + seq![')']) =~= target);
    let i = table.len() as int;
    assert(target.take(i) =~= table);
    assert(target.subrange(i + 1, target.len() - 1) =~= column);
}

proof fn lemma_word_stands(word: Seq<char>, keyword: Seq<char>, rest: Seq<char>)
    requires
        lowered(word) == lowered(keyword),
        keyword.len() > 0,
        'a' <= lowered(keyword)[0] <= 'z',
        rest.len() > 0,
        !is_space(rest[0]) && !is_space(rest.last()),
    ensures
        after_keyword(word + seq![' '] + rest, keyword) == Some(rest),
        !is_space((word + seq![' '] + rest)[0]) && !is_space((word + seq![' '] + rest).last()),
{
    assert(lowered(word).len() == word.len() && lowered(keyword).len() == keyword.len());
    assert(lowered(word)[0] == lower(word[0]));
    assert(!is_space(word[0]));
    a_keyword_is_a_whole_word(word, keyword, ' ', rest);
    lemma_solid(rest);
    assert((word + seq![' '] + rest)[0] == word[0]);
}

proof fn lemma_first_place(a: Seq<char>, b: Seq<char>, c: char)
    requires
        !a.contains(c),
    ensures
        first_of(a + seq![c] + b, c) == Some(a.len() as int),
    decreases a.len(),
{
    let s = a + seq![c] + b;
    if a.len() > 0 {
        assert(a.contains(a[0]));
        assert(s[0] == a[0]);
        let rest = a.drop_first();
        if rest.contains(c) {
            let k = rest.index_of(c);
            assert(a[k + 1] == c);
        }
        lemma_first_place(rest, b, c);
        assert(s.drop_first() =~= rest + seq![c] + b);
    } else {
        assert(s[0] == c);
    }
}

}
