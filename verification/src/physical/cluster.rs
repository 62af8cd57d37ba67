//! The clustering stage: grouping rows by what they are about.
//!
//! Three steps, none of them per-row. The index hands back the document vectors
//! it already paid to compute; k-means groups them (sweeping for `k` when the
//! query didn't say); then one model call per cluster reads its most central
//! documents and names it. Cost is a function of the number of groups, not the
//! number of rows.
//!
//! Row semantics ("rows fail, queries don't"): a row whose text is NULL or which
//! the index has never seen gets a NULL label rather than being dropped; it is
//! still a row, it just has no group. A cluster whose labelling call fails gets
//! a positional fallback name, so the grouping survives even when the naming
//! does not.

use std::collections::{HashMap, HashSet};

use serde_json::Value;
use vstd::prelude::*;

use crate::cache::{
    hash_list, known, list_hash, lookup, CacheKey, CachedValue, Contents, KeyView, SemanticCache,
};
use crate::index::kmeans::{ints, members_of, Clustering};
use crate::index::{doc_hash, hash_of, opt_views};
use crate::json::{json_of, value_member, value_str, Json};
use crate::model::{answer_text, answer_texts, Answer, CompletionRequest, ModelId, RequestView};
use crate::physical::extract::{object_in, parse_json_object};
use crate::physical::rank::{relevance_key, single_member, single_member_schema};
use crate::physical::verify::means_key;
use crate::physical::{
    agreed, answers_stay_answered, hits, keep_first, lemma_agreed_len, lemma_agreed_prefix,
    missed_keys, misses, misses_are_the_unanswered, remembered, unusable, usable_values_are_cached,
};
use crate::sort::{sort, sorted, sorting_keeps_the_values};
use crate::text::{
    decimal, decimal_is_digits, decimal_is_injective, decimal_reads_back, is_digit, is_space, join,
    joined, joining_keeps_every_part, list_has, occurs_in, opt_view, parsed_number, push_decimal,
    trim, trimmed, trimming_leaves_the_core, views, what_is_trimmed_stands_in_the_text, Class,
};

verus! {

/// Version of the synthesized labelling prompt. Participates in cache keys: bump
/// it and every cached label is honestly invalidated.
pub const CLUSTER_PROMPT_VERSION: &'static str = "cluster-v1";

/// Enough for a short noun phrase and its JSON wrapper.
pub const LABEL_MAX_TOKENS: usize = 64;

/// Separates the excerpts one labelling call reads.
pub const MEMBER_SEPARATOR: &'static str = "\n---\n";

pub open spec fn label_prompt() -> Seq<char> {
    "You are naming a group of documents that were grouped together because they are about similar things. You see several of them, separated by `---`.\n\nReply with a JSON object {\"label\": \"...\"} whose label is a short noun phrase — at most five words — naming what this group is about. Name what these documents share, not what any one of them says."@
}

/// The instruction the labelling model sees. Users never write this.
pub fn synthesize_label_prompt() -> (r: String)
    ensures
        r@ == label_prompt(),
{
    "You are naming a group of documents that were grouped together because they are about similar things. You see several of them, separated by `---`.\n\nReply with a JSON object {\"label\": \"...\"} whose label is a short noun phrase — at most five words — naming what this group is about. Name what these documents share, not what any one of them says.".to_owned()
}

/// The JSON schema the label is decoded under.
pub fn label_schema() -> (r: Value)
    ensures
        json_of(r) == single_member_schema("label"@, "string"@),
{
    single_member("label", "string")
}

/// The name of a group that could not be named: its position.
pub open spec fn fallback(cluster: nat) -> Seq<char> {
    "group "@ + decimal(cluster + 1)
}

/// The name of a group that could not be named: its position.
pub fn fallback_name(cluster: usize) -> (r: String)
    requires
        cluster < usize::MAX,
    ensures
        r@ == fallback(cluster as nat),
{
    let mut name: String = "group ".to_owned();
    push_decimal(&mut name, cluster as u64 + 1);
    name
}

/// A name with its number.
pub open spec fn numbered(name: Seq<char>, count: nat) -> Seq<char> {
    name + " ("@ + decimal(count) + ")"@
}

/// Whether a number is the first from two on that tells a name apart from some
/// labels.
pub open spec fn first_free(taken: Seq<Seq<char>>, name: Seq<char>, n: nat) -> bool {
    n >= 2 && !taken.contains(numbered(name, n)) && forall|m: nat|
        2 <= m < n ==> taken.contains(#[trigger] numbered(name, m))
}

/// The label of a name beside some labels: the name itself where it is free, else
/// with the first number that is.
pub open spec fn label_beside(taken: Seq<Seq<char>>, name: Seq<char>) -> Seq<char> {
    if taken.contains(name) {
        numbered(name, choose|n: nat| first_free(taken, name, n))
    } else {
        name
    }
}

/// The names, told apart, one after another.
pub open spec fn told_apart(names: Seq<Seq<char>>) -> Seq<Seq<char>>
    decreases names.len(),
{
    if names.len() == 0 {
        Seq::empty()
    } else {
        let before = told_apart(names.drop_last());
        before.push(label_beside(before, names.last()))
    }
}

/// No more numbers of a name are taken than there are labels beside the name
/// itself.
proof fn lemma_taken(taken: Seq<Seq<char>>, name: Seq<char>, n: nat)
    requires
        n >= 2,
        taken.contains(name),
        forall|m: nat| 2 <= m < n ==> taken.contains(#[trigger] numbered(name, m)),
    ensures
        n - 1 <= taken.len(),
{
    let want = Seq::new(
        (n - 1) as nat,
        |i: int|
            if i == 0 {
                name
            } else {
                numbered(name, (i + 1) as nat)
            },
    );
    assert(want.no_duplicates()) by {
        assert forall|i: int, j: int| 0 <= i < j < want.len() implies want[i] != want[j] by {
            if want[i] == want[j] {
                if i == 0 {
                    lemma_longer(name, (j + 1) as nat);
                } else {
                    lemma_numbered(name, (i + 1) as nat, name, (j + 1) as nat);
                }
            }
        }
    }
    assert(want.to_set().subset_of(taken.to_set())) by {
        assert forall|x: Seq<char>| want.to_set().contains(x) implies taken.to_set().contains(x) by {
            let i = choose|i: int| 0 <= i < want.len() && want[i] == x;
            if i > 0 {
                assert(taken.contains(numbered(name, (i + 1) as nat)));
            }
        }
    }
    want.unique_seq_to_set();
    taken.lemma_cardinality_of_set();
    vstd::set_lib::lemma_len_subset(want.to_set(), taken.to_set());
}

proof fn lemma_longer(name: Seq<char>, n: nat)
    ensures
        numbered(name, n).len() > name.len(),
{
    reveal_strlit(" (");
    reveal_strlit(")");
}

proof fn lemma_first_free(taken: Seq<Seq<char>>, name: Seq<char>, a: nat, b: nat)
    requires
        first_free(taken, name, a),
        first_free(taken, name, b),
    ensures
        a == b,
{
    if a < b {
        assert(taken.contains(numbered(name, a)));
    } else if b < a {
        assert(taken.contains(numbered(name, b)));
    }
}

/// A name with its number, as a string.
fn with_number(name: &str, n: u64) -> (r: String)
    ensures
        r@ == numbered(name@, n as nat),
{
    let mut label: String = name.to_owned();
    label.append(" (");
    push_decimal(&mut label, n);
    label.append(")");
    label
}

/// The label of a name beside some labels.
fn beside(taken: &Vec<String>, name: &str) -> (r: String)
    requires
        taken.len() < usize::MAX,
    ensures
        r@ == label_beside(views(taken@), name@),
        !views(taken@).contains(r@),
{
    let ghost all = views(taken@);
    if !list_has(taken, name) {
        return name.to_owned();
    }
    let mut n: u64 = 2;
    let mut label: String = with_number(name, n);
    while list_has(taken, label.as_str())
        invariant
            2 <= n,
            taken.len() < usize::MAX,
            all == views(taken@),
            all.contains(name@),
            label@ == numbered(name@, n as nat),
            forall|m: nat| 2 <= m < n ==> all.contains(#[trigger] numbered(name@, m)),
        decreases taken.len() + 2 - n,
    {
        proof {
            assert forall|m: nat| 2 <= m < n + 1 implies all.contains(
                #[trigger] numbered(name@, m),
            ) by {
                if m == n {
                    assert(numbered(name@, m) == label@);
                }
            }
            lemma_taken(all, name@, (n + 1) as nat);
        }
        n += 1;
        label = with_number(name, n);
    }
    proof {
        assert(first_free(all, name@, n as nat));
        lemma_first_free(
            all,
            name@,
            n as nat,
            choose|m: nat| first_free(all, name@, m),
        );
    }
    label
}

/// Group labels are keys, so two groups must never share one. A model that names
/// two clusters identically gets them numbered apart rather than silently merged
/// by the `GROUP BY` above.
pub fn deduplicate(names: Vec<String>) -> (r: Vec<String>)
    ensures
        views(r@) == told_apart(views(names@)),
        r@.len() == names@.len(),
        forall|i: int, j: int| 0 <= i < j < r@.len() ==> r@[i]@ != r@[j]@,
        views(names@).no_duplicates() ==> views(r@) == views(names@),
{
    let ghost all = views(names@);
    let mut out: Vec<String> = Vec::new();
    let mut i: usize = 0;
    while i < names.len()
        invariant
            i <= names.len(),
            out.len() == i,
            all == views(names@),
            views(out@) == told_apart(all.take(i as int)),
        decreases names.len() - i,
    {
        assert(all.take(i + 1).drop_last() == all.take(i as int));
        let ghost before = views(out@);
        let label = beside(&out, names[i].as_str());
        out.push(label);
        assert(views(out@) == before.push(label@));
        i += 1;
    }
    assert(all.take(i as int) == all);
    proof {
        labels_are_told_apart(all);
        assert forall|i: int, j: int| 0 <= i < j < out@.len() implies out@[i]@ != out@[j]@ by {
            assert(views(out@)[i] == out@[i]@ && views(out@)[j] == out@[j]@);
        }
    }
    out
}

/// A numbered name tells which name and which number it was made of.
proof fn lemma_numbered(a: Seq<char>, m: nat, b: Seq<char>, n: nat)
    requires
        numbered(a, m) == numbered(b, n),
    ensures
        a == b,
        m == n,
{
    reveal_strlit(" (");
    reveal_strlit(")");
    decimal_is_digits(m);
    decimal_is_digits(n);
    let la = a.len() as int;
    let lb = b.len() as int;
    let s = numbered(a, m);
    let t = numbered(b, n);
    let da = decimal(m);
    let db = decimal(n);
    assert(s.len() == a.len() + 2 + da.len() + 1);
    assert(t.len() == b.len() + 2 + db.len() + 1);
    assert(s[la + 1] == '(');
    assert(t[lb + 1] == '(');
    if a.len() < b.len() {
        let k = lb + 1 - (la + 2);
        assert(s[lb + 1] == da[k]);
        assert(is_digit(da[k]));
        assert(false);
    }
    if b.len() < a.len() {
        let k = la + 1 - (lb + 2);
        assert(t[la + 1] == db[k]);
        assert(is_digit(db[k]));
        assert(false);
    }
    assert forall|i: int| 0 <= i < a.len() implies a[i] == b[i] by {
        assert(s[i] == a[i] && t[i] == b[i]);
    }
    assert(a =~= b);
    assert forall|i: int| 0 <= i < da.len() implies da[i] == db[i] by {
        assert(s[la + 2 + i] == da[i] && t[lb + 2 + i] == db[i]);
    }
    assert(da =~= db);
    decimal_is_injective(m, n);
}

/// Some number of a name is always free.
proof fn lemma_free(taken: Seq<Seq<char>>, name: Seq<char>, n: nat)
    requires
        n >= 2,
        taken.contains(name),
        forall|m: nat| 2 <= m < n ==> taken.contains(#[trigger] numbered(name, m)),
    ensures
        exists|m: nat| first_free(taken, name, m),
    decreases taken.len() + 2 - n,
{
    lemma_taken(taken, name, n);
    if taken.contains(numbered(name, n)) {
        assert forall|m: nat| 2 <= m < n + 1 implies taken.contains(
            #[trigger] numbered(name, m),
        ) by {
            if m == n {
                assert(numbered(name, m) == numbered(name, n));
            }
        }
        lemma_taken(taken, name, n + 1);
        lemma_free(taken, name, n + 1);
    } else {
        assert(first_free(taken, name, n));
    }
}

/// Two groups never share a label: there is one label for each name, all labels
/// differ, and names that differ already are left as they are.
pub proof fn labels_are_told_apart(names: Seq<Seq<char>>)
    ensures
        told_apart(names).len() == names.len(),
        told_apart(names).no_duplicates(),
        names.no_duplicates() ==> told_apart(names) == names,
    decreases names.len(),
{
    if names.len() > 0 {
        let rest = names.drop_last();
        let before = told_apart(rest);
        let name = names.last();
        labels_are_told_apart(rest);
        assert(!before.contains(label_beside(before, name))) by {
            if before.contains(name) {
                lemma_free(before, name, 2);
                let n = choose|n: nat| first_free(before, name, n);
                assert(first_free(before, name, n));
            }
        }
        assert(told_apart(names).no_duplicates());
        if names.no_duplicates() {
            assert(rest.no_duplicates());
            if before.contains(name) {
                let k = choose|k: int| 0 <= k < before.len() && before[k] == name;
                assert(names[k] == names[names.len() - 1]);
            }
            assert(told_apart(names) =~= names);
        }
    }
}

/// The label that an answer gives: none where it is blank.
pub open spec fn label_of(text: Seq<char>) -> Option<Seq<char>> {
    match object_in(text) {
        Some(object) => match object.member("label"@) {
            Some(j) => match j.as_text() {
                Some(s) => if trimmed(s).len() > 0 {
                    Some(trimmed(s))
                } else {
                    None
                },
                None => None,
            },
            None => None,
        },
        None => None,
    }
}

/// `None` means the model didn't give a usable label.
pub fn parse_label(text: &str) -> (r: Option<String>)
    ensures
        opt_view(r) == label_of(text@),
{
    let object = match parse_json_object(text) {
        Some(object) => object,
        None => {
            return None;
        },
    };
    let member = match value_member(&object, "label") {
        Some(member) => member,
        None => {
            return None;
        },
    };
    let label = match value_str(member) {
        Some(label) => trim(label.as_str()),
        None => {
            return None;
        },
    };
    if label.as_str().is_empty() {
        None
    } else {
        Some(label)
    }
}

/// The indexed documents of a column, by identity, in the order in which they
/// first appear.
pub open spec fn indexed_documents(texts: Seq<Option<Seq<char>>>, indexed: Set<u64>) -> Seq<u64>
    decreases texts.len(),
{
    if texts.len() == 0 {
        Seq::empty()
    } else {
        let before = indexed_documents(texts.drop_last(), indexed);
        match texts.last() {
            Some(t) => if indexed.contains(hash_of(t)) && !before.contains(hash_of(t)) {
                before.push(hash_of(t))
            } else {
                before
            },
            None => before,
        }
    }
}

/// How many rows have a text that the index has never seen.
pub open spec fn unindexed(texts: Seq<Option<Seq<char>>>, indexed: Set<u64>) -> nat
    decreases texts.len(),
{
    if texts.len() == 0 {
        0
    } else {
        unindexed(texts.drop_last(), indexed) + (match texts.last() {
            Some(t) => if indexed.contains(hash_of(t)) {
                0nat
            } else {
                1nat
            },
            None => 0nat,
        })
    }
}

/// The last text of a column with some identity.
pub open spec fn text_with(texts: Seq<Option<Seq<char>>>, hash: u64) -> Option<Seq<char>>
    decreases texts.len(),
{
    if texts.len() == 0 {
        None
    } else {
        match texts.last() {
            Some(t) => if hash_of(t) == hash {
                Some(t)
            } else {
                text_with(texts.drop_last(), hash)
            },
            None => text_with(texts.drop_last(), hash),
        }
    }
}

/// The indexed documents of a column.
#[derive(Debug)]
pub struct Documents {
    /// Their identities.
    pub hashes: Vec<u64>,
    pub texts: HashMap<u64, String>,
    pub unindexed_rows: usize,
}

/// Collects the indexed documents of a column, in the order in which they first
/// appear. A document that the index has never seen is counted and left out.
pub fn collect_documents(texts: &Vec<Option<String>>, indexed: &HashSet<u64>) -> (r: Documents)
    ensures
        ({
            let col = opt_views(texts@);
            &&& r.hashes@ == indexed_documents(col, indexed@)
            &&& r.hashes@.no_duplicates()
            &&& forall|h: u64| #[trigger] r.texts@.contains_key(h) <==> r.hashes@.contains(h)
            &&& forall|h: u64| #[trigger]
                r.texts@.contains_key(h) ==> text_with(col, h) == Some(r.texts@[h]@)
            &&& r.unindexed_rows == unindexed(col, indexed@)
        }),
{
    let mut hashes: Vec<u64> = Vec::new();
    let mut by_hash: HashMap<u64, String> = HashMap::new();
    let mut unindexed_rows: usize = 0;
    let ghost col = opt_views(texts@);
    let mut i: usize = 0;
    while i < texts.len()
        invariant
            i <= texts.len(),
            col == opt_views(texts@),
            hashes@ == indexed_documents(col.take(i as int), indexed@),
            forall|h: u64| #[trigger] by_hash@.contains_key(h) <==> hashes@.contains(h),
            forall|h: u64| #[trigger]
                by_hash@.contains_key(h) ==> text_with(col.take(i as int), h) == Some(
                    by_hash@[h]@,
                ),
            unindexed_rows == unindexed(col.take(i as int), indexed@),
            unindexed_rows <= i,
        decreases texts.len() - i,
    {
        assert(col.take(i + 1).drop_last() == col.take(i as int));
        assert(col.take(i + 1).last() == col[i as int]);
        if let Some(text) = &texts[i] {
            let hash = doc_hash(text.as_str());
            if !indexed.contains(&hash) {
                unindexed_rows = unindexed_rows + 1;
                assert forall|h: u64| #[trigger] by_hash@.contains_key(h) implies text_with(
                    col.take(i + 1),
                    h,
                ) == Some(by_hash@[h]@) by {
                    if h == hash {
                        assert(hashes@.contains(h));
                        lemma_indexed_documents(col.take(i as int), indexed@, h);
                    }
                }
            } else {
                let ghost before = hashes@;
                let seen: bool = by_hash.contains_key(&hash);
                by_hash.insert(hash, text.clone());
                if !seen {
                    hashes.push(hash);
                    assert forall|h: u64|
                        hashes@.contains(h) <==> before.contains(h) || h == hash by {
                        if before.contains(h) {
                            let k = choose|k: int| 0 <= k < before.len() && before[k] == h;
                            assert(hashes@[k] == h);
                        }
                        if hashes@.contains(h) && h != hash {
                            let k = choose|k: int| 0 <= k < hashes@.len() && hashes@[k] == h;
                            assert(before[k] == h);
                        }
                        if h == hash {
                            assert(hashes@[before.len() as int] == h);
                        }
                    }
                }
            }
        }
        i += 1;
    }
    assert(col.take(i as int) == col);
    proof {
        lemma_documents_differ(col, indexed@);
    }
    Documents { hashes, texts: by_hash, unindexed_rows }
}

/// Collects the indexed documents of a column in an order of their own, so that
/// a grouping does not depend on the order of the rows.
pub fn ordered_documents(texts: &Vec<Option<String>>, indexed: &HashSet<u64>) -> (r: Documents)
    ensures
        ({
            let col = opt_views(texts@);
            &&& r.hashes@ == sorted(indexed_documents(col, indexed@))
            &&& forall|h: u64| #[trigger] r.texts@.contains_key(h) <==> r.hashes@.contains(h)
            &&& forall|h: u64| #[trigger]
                r.texts@.contains_key(h) ==> text_with(col, h) == Some(r.texts@[h]@)
            &&& r.unindexed_rows == unindexed(col, indexed@)
        }),
{
    let docs = collect_documents(texts, indexed);
    let hashes = sort(&docs.hashes);
    proof {
        sorting_keeps_the_values(docs.hashes@);
    }
    Documents { hashes, texts: docs.texts, unindexed_rows: docs.unindexed_rows }
}

proof fn lemma_documents_differ(texts: Seq<Option<Seq<char>>>, indexed: Set<u64>)
    ensures
        indexed_documents(texts, indexed).no_duplicates(),
    decreases texts.len(),
{
    if texts.len() > 0 {
        lemma_documents_differ(texts.drop_last(), indexed);
        let before = indexed_documents(texts.drop_last(), indexed);
        let now = indexed_documents(texts, indexed);
        assert forall|i: int, j: int| 0 <= i < j < now.len() implies now[i] != now[j] by {
            assert(now[i] == before[i]);
            assert(before.contains(before[i]));
        }
    }
}

/// Whether a row of a column holds a document.
pub open spec fn row_holds(texts: Seq<Option<Seq<char>>>, i: int, hash: u64) -> bool {
    texts[i] is Some && hash_of(texts[i]->0) == hash
}

proof fn lemma_documents_are_those_of_rows(
    texts: Seq<Option<Seq<char>>>,
    indexed: Set<u64>,
    h: u64,
)
    ensures
        indexed_documents(texts, indexed).contains(h) <==> indexed.contains(h) && exists|i: int|
            0 <= i < texts.len() && #[trigger] row_holds(texts, i, h),
    decreases texts.len(),
{
    if texts.len() > 0 {
        let rest = texts.drop_last();
        let before = indexed_documents(rest, indexed);
        let now = indexed_documents(texts, indexed);
        lemma_documents_are_those_of_rows(rest, indexed, h);
        assert forall|i: int| 0 <= i < rest.len() implies row_holds(rest, i, h) == (
        #[trigger] row_holds(texts, i, h)) by {
            assert(rest[i] == texts[i]);
        }
        if before.contains(h) {
            let k = choose|k: int| 0 <= k < before.len() && before[k] == h;
            assert(now[k] == h);
            let i = choose|i: int| 0 <= i < rest.len() && #[trigger] row_holds(rest, i, h);
            assert(row_holds(texts, i, h));
        } else if now.contains(h) {
            let k = choose|k: int| 0 <= k < now.len() && now[k] == h;
            assert(k == before.len()) by {
                if k < before.len() {
                    assert(before[k] == h);
                }
            }
            assert(row_holds(texts, texts.len() - 1, h));
        } else if indexed.contains(h) && row_holds(texts, texts.len() - 1, h) {
            assert(now == before.push(h));
            assert(now[before.len() as int] == h);
        }
    }
}

proof fn lemma_rows_of(texts: Seq<Option<Seq<char>>>, row: Option<Seq<char>>)
    ensures
        texts.to_multiset().contains(row) <==> exists|i: int|
            0 <= i < texts.len() && #[trigger] texts[i] == row,
{
    broadcast use vstd::seq_lib::group_to_multiset_ensures;

    assert(texts.contains(row) <==> texts.to_multiset().count(row) > 0);
}

/// A grouping must not depend on how a scan happened to order its rows: a column
/// with its rows in another order has the same documents, in the same order.
pub proof fn a_grouping_ignores_the_order_of_the_rows(
    a: Seq<Option<Seq<char>>>,
    b: Seq<Option<Seq<char>>>,
    indexed: Set<u64>,
)
    requires
        a.to_multiset() == b.to_multiset(),
    ensures
        sorted(indexed_documents(a, indexed)) == sorted(indexed_documents(b, indexed)),
{
    let x = indexed_documents(a, indexed);
    let y = indexed_documents(b, indexed);
    assert forall|h: u64| x.contains(h) == y.contains(h) by {
        lemma_documents_are_those_of_rows(a, indexed, h);
        lemma_documents_are_those_of_rows(b, indexed, h);
        if x.contains(h) {
            let i = choose|i: int| 0 <= i < a.len() && #[trigger] row_holds(a, i, h);
            lemma_rows_of(a, a[i]);
            lemma_rows_of(b, a[i]);
            let j = choose|j: int| 0 <= j < b.len() && #[trigger] b[j] == a[i];
            assert(row_holds(b, j, h));
        }
        if y.contains(h) {
            let i = choose|i: int| 0 <= i < b.len() && #[trigger] row_holds(b, i, h);
            lemma_rows_of(a, b[i]);
            lemma_rows_of(b, b[i]);
            let j = choose|j: int| 0 <= j < a.len() && #[trigger] a[j] == b[i];
            assert(row_holds(a, j, h));
        }
    }
    lemma_documents_differ(a, indexed);
    lemma_documents_differ(b, indexed);
    assert(x.to_multiset() =~= y.to_multiset()) by {
        broadcast use vstd::seq_lib::group_to_multiset_ensures;

        x.lemma_multiset_has_no_duplicates();
        y.lemma_multiset_has_no_duplicates();
        assert forall|h: u64| x.to_multiset().count(h) == y.to_multiset().count(h) by {
            assert(x.contains(h) <==> x.to_multiset().count(h) > 0);
            assert(y.contains(h) <==> y.to_multiset().count(h) > 0);
        }
    }
    sorting_keeps_the_values(x);
    sorting_keeps_the_values(y);
    vstd::seq_lib::lemma_sorted_unique(sorted(x), sorted(y), crate::sort::order::<u64>());
}

pub proof fn lemma_indexed_documents(texts: Seq<Option<Seq<char>>>, indexed: Set<u64>, h: u64)
    requires
        indexed_documents(texts, indexed).contains(h),
    ensures
        indexed.contains(h),
        text_with(texts, h) is Some,
    decreases texts.len(),
{
    let now = indexed_documents(texts, indexed);
    let k = choose|k: int| 0 <= k < now.len() && now[k] == h;
    if texts.len() > 0 {
        let before = indexed_documents(texts.drop_last(), indexed);
        if k < before.len() {
            assert(before[k] == h);
            lemma_indexed_documents(texts.drop_last(), indexed, h);
        }
    }
}


/// One clustering stage: the model that names its groups.
#[derive(Debug)]
pub struct Grouper {
    pub model_id: ModelId,
}

/// A group that needs a name, and the provenance the name is kept under.
#[derive(Debug)]
pub struct PendingName {
    pub cluster: usize,
    pub key: CacheKey,
}

/// The first step of naming: what the cache names, and what to ask.
#[derive(Debug)]
pub struct NamePlan {
    pub names: Vec<String>,
    pub requests: Vec<CompletionRequest>,
    pub pending: Vec<PendingName>,
    pub cache_hits: usize,
}

/// The second step of naming: the name of each group.
#[derive(Debug)]
pub struct NameOutcome {
    pub names: Vec<String>,
    pub labels_failed: usize,
}

impl NamePlan {
    pub open spec fn clusters(&self) -> Seq<int> {
        self.pending@.map_values(|p: PendingName| p.cluster as int)
    }

    pub open spec fn keys(&self) -> Seq<KeyView> {
        self.pending@.map_values(|p: PendingName| p.key@)
    }

    /// Every pending group is one of the groups.
    pub open spec fn well_formed(&self) -> bool {
        self.names.len() < usize::MAX && forall|j: int|
            0 <= j < self.pending.len() ==> (#[trigger] self.pending[j]).cluster < self.names.len()
    }
}

/// What the naming of groups reads: the documents that were clustered, the
/// clustering, and the documents that stand for each group.
pub open spec fn nameable(
    hashes: Seq<u64>,
    texts: Map<u64, String>,
    clustering: &Clustering,
    reps: Map<usize, Vec<usize>>,
) -> bool {
    &&& clustering.well_formed()
    &&& clustering.k < usize::MAX
    &&& clustering.assignments.len() == hashes.len()
    &&& forall|i: int| 0 <= i < hashes.len() ==> texts.contains_key(#[trigger] hashes[i])
    &&& forall|c: usize, j: int|
        reps.contains_key(c) && 0 <= j < reps[c].len() ==> #[trigger] reps[c][j] < hashes.len()
}

/// The identities of a group's members, in order.
pub open spec fn member_hashes(hashes: Seq<u64>, assignments: Seq<usize>, cluster: int) -> Seq<u64> {
    sorted(members_of(assignments, cluster).map_values(|p: int| hashes[p]))
}

/// The excerpts that stand for a group.
pub open spec fn excerpts(hashes: Seq<u64>, texts: Map<u64, String>, points: Seq<usize>) -> Seq<
    Seq<char>,
> {
    points.map_values(|p: usize| texts[hashes[p as int]]@)
}

/// The names once the pending groups have theirs: a group that could not be
/// named is still a group, and takes its positional name.
pub open spec fn named(
    names: Seq<Seq<char>>,
    clusters: Seq<int>,
    labels: Seq<Option<Seq<char>>>,
) -> Seq<Seq<char>>
    decreases labels.len(),
{
    if labels.len() == 0 {
        names
    } else {
        let before = named(names, clusters.drop_last(), labels.drop_last());
        before.update(
            clusters.last(),
            match labels.last() {
                Some(label) => label,
                None => fallback(clusters.last() as nat),
            },
        )
    }
}

/// The labels that some answers give.
pub open spec fn labels_of(answers: Seq<Option<Seq<char>>>) -> Seq<Option<Seq<char>>> {
    answers.map_values(
        |a: Option<Seq<char>>|
            match a {
                Some(text) => label_of(text),
                None => None,
            },
    )
}

impl Grouper {
    /// Provenance: the exact set of documents grouped together, plus the model
    /// and prompt scheme that named them.
    pub open spec fn key(&self, members: Seq<u64>) -> KeyView {
        KeyView {
            type_version: "cluster"@,
            field: "label"@,
            input_hash: list_hash(members),
            model_id: self.model_id@,
            prompt_version: CLUSTER_PROMPT_VERSION@,
        }
    }

    /// What is asked of each group: nothing of one without documents.
    pub open spec fn keys(
        &self,
        hashes: Seq<u64>,
        clustering: &Clustering,
        reps: Map<usize, Vec<usize>>,
    ) -> Seq<Option<KeyView>> {
        Seq::new(
            clustering.k as nat,
            |c: int|
                if reps.contains_key(c as usize) {
                    Some(self.key(member_hashes(hashes, clustering.assignments@, c)))
                } else {
                    None
                },
        )
    }

    pub open spec fn request(input: Seq<char>) -> RequestView {
        RequestView {
            system: label_prompt(),
            input,
            max_tokens: LABEL_MAX_TOKENS as nat,
            schema: Some(single_member_schema("label"@, "string"@)),
        }
    }

    /// The name of a group before the model is asked.
    pub open spec fn first_name(key: Option<KeyView>, cluster: int, c: Contents) -> Seq<char> {
        match key {
            Some(k) => match known(c, k) {
                Some(label) => label,
                None => Seq::empty(),
            },
            None => fallback(cluster as nat),
        }
    }

    fn cache_key(&self, members: &Vec<usize>, hashes: &Vec<u64>) -> (r: CacheKey)
        requires
            forall|j: int| 0 <= j < members.len() ==> #[trigger] members[j] < hashes.len(),
        ensures
            r@ == self.key(sorted(ints(members@).map_values(|p: int| hashes@[p]))),
    {
        let mut list: Vec<u64> = Vec::new();
        let ghost all = ints(members@).map_values(|p: int| hashes@[p]);
        let mut j: usize = 0;
        while j < members.len()
            invariant
                j <= members.len(),
                forall|j: int| 0 <= j < members.len() ==> #[trigger] members[j] < hashes.len(),
                all == ints(members@).map_values(|p: int| hashes@[p]),
                list@ == all.take(j as int),
            decreases members.len() - j,
        {
            list.push(hashes[members[j]]);
            j += 1;
        }
        assert(all.take(j as int) == all);
        let ordered = sort(&list);
        CacheKey {
            type_version: "cluster".to_owned(),
            field: "label".to_owned(),
            input_hash: hash_list(&ordered),
            model_id: self.model_id.copy(),
            prompt_version: CLUSTER_PROMPT_VERSION.to_owned(),
        }
    }

    /// Plans the naming of the groups: one model call per group, reading its
    /// most central documents. Keyed on the group's whole membership: the same
    /// grouping always gets the same name, and a different grouping never
    /// inherits one.
    pub fn plan_names<C: SemanticCache>(
        &self,
        hashes: &Vec<u64>,
        texts: &HashMap<u64, String>,
        clustering: &Clustering,
        reps: &HashMap<usize, Vec<usize>>,
        cache: &C,
    ) -> (r: NamePlan)
        requires
            nameable(hashes@, texts@, clustering, reps@),
        ensures
            ({
                let keys = self.keys(hashes@, clustering, reps@);
                let c = cache.contents();
                &&& r.well_formed()
                &&& r.names.len() == clustering.k
                &&& forall|i: int|
                    0 <= i < clustering.k ==> (#[trigger] r.names[i])@ == Self::first_name(
                        keys[i],
                        i,
                        c,
                    )
                &&& r.clusters() == misses(keys, c)
                &&& r.requests.len() == r.pending.len()
                &&& forall|j: int|
                    0 <= j < r.pending.len() ==> {
                        let cluster = (#[trigger] r.pending[j]).cluster;
                        Some(r.pending[j].key@) == keys[cluster as int] && r.requests[j]@
                            == Self::request(
                            joined(
                                excerpts(hashes@, texts@, reps@[cluster]@),
                                MEMBER_SEPARATOR@,
                            ),
                        )
                    }
                &&& r.cache_hits == hits(keys, c)
            }),
    {
        let members = clustering.members();
        let mut names: Vec<String> = Vec::new();
        let mut requests: Vec<CompletionRequest> = Vec::new();
        let mut pending: Vec<PendingName> = Vec::new();
        let mut cache_hits: usize = 0;
        let ghost keys = self.keys(hashes@, clustering, reps@);
        let ghost c = cache.contents();
        let ghost cluster_of = |p: PendingName| p.cluster as int;
        let ghost assigned = clustering.assignments@;
        let mut cluster: usize = 0;
        assert(pending@.map_values(cluster_of) == misses(keys.take(0), c));
        while cluster < clustering.k
            invariant
                nameable(hashes@, texts@, clustering, reps@),
                cluster <= clustering.k == members.len(),
                assigned == clustering.assignments@,
                forall|d: int|
                    0 <= d < clustering.k ==> ints((#[trigger] members[d])@) == members_of(
                        assigned,
                        d,
                    ),
                keys == self.keys(hashes@, clustering, reps@),
                c == cache.contents(),
                cluster_of == (|p: PendingName| p.cluster as int),
                names.len() == cluster,
                forall|i: int|
                    0 <= i < cluster ==> (#[trigger] names[i])@ == Self::first_name(keys[i], i, c),
                pending@.map_values(cluster_of) == misses(keys.take(cluster as int), c),
                requests.len() == pending.len(),
                forall|j: int|
                    0 <= j < pending.len() ==> {
                        let d = (#[trigger] pending[j]).cluster;
                        d < cluster && Some(pending[j].key@) == keys[d as int] && requests[j]@
                            == Self::request(
                            joined(excerpts(hashes@, texts@, reps@[d]@), MEMBER_SEPARATOR@),
                        )
                    },
                cache_hits == hits(keys.take(cluster as int), c),
                cache_hits <= cluster,
            decreases clustering.k - cluster,
        {
            assert(keys.take(cluster + 1).drop_last() == keys.take(cluster as int));
            assert(keys.take(cluster + 1).last() == keys[cluster as int]);
            match reps.get(&cluster) {
                None => {
                    names.push(fallback_name(cluster));
                },
                Some(chosen) => {
                    assert(reps@.contains_key(cluster) && reps@[cluster] == chosen);
                    let mut parts: Vec<String> = Vec::new();
                    let ghost all = excerpts(hashes@, texts@, chosen@);
                    let mut j: usize = 0;
                    while j < chosen.len()
                        invariant
                            nameable(hashes@, texts@, clustering, reps@),
                            reps@.contains_key(cluster) && reps@[cluster] == chosen,
                            j <= chosen.len(),
                            all == excerpts(hashes@, texts@, chosen@),
                            views(parts@) == all.take(j as int),
                        decreases chosen.len() - j,
                    {
                        assert(reps@[cluster][j as int] < hashes.len());
                        let point: usize = chosen[j];
                        let hash: u64 = hashes[point];
                        assert(texts@.contains_key(hashes@[point as int]));
                        match texts.get(&hash) {
                            Some(text) => {
                                let ghost before = views(parts@);
                                parts.push(text.clone());
                                assert(views(parts@) == before.push(text@));
                            },
                            None => {},
                        }
                        j += 1;
                    }
                    assert(all.take(j as int) == all);
                    let input = join(&parts, MEMBER_SEPARATOR);
                    let ghost points = members_of(assigned, cluster as int);
                    assert(ints(members[cluster as int]@) == points);
                    proof {
                        crate::index::kmeans::lemma_members(assigned, cluster as int);
                        assert forall|j: int|
                            0 <= j < members[cluster as int].len() implies #[trigger] members[cluster as int][j]
                            < hashes.len() by {
                            assert(points[j] == members[cluster as int][j] as int);
                        }
                    }
                    let key = self.cache_key(&members[cluster], hashes);
                    assert(keys[cluster as int] == Some(key@));
                    match lookup(cache, &key) {
                        Some(label) => {
                            cache_hits = cache_hits + 1;
                            names.push(label);
                        },
                        None => {
                            names.push(String::new());
                            let ghost before = pending@.map_values(cluster_of);
                            requests.push(
                                CompletionRequest {
                                    system: synthesize_label_prompt(),
                                    input,
                                    max_tokens: LABEL_MAX_TOKENS,
                                    schema: Some(label_schema()),
                                },
                            );
                            pending.push(PendingName { cluster, key });
                            assert(pending@.map_values(cluster_of) == before.push(cluster as int));
                        },
                    }
                },
            }
            cluster += 1;
        }
        assert(keys.take(cluster as int) == keys);
        NamePlan { names, requests, pending, cache_hits }
    }

    /// Names the groups with the model's answers, and tells equal names apart.
    pub fn apply<C: SemanticCache>(&self, plan: NamePlan, answers: &Vec<Answer>, cache: &mut C) -> (r:
        NameOutcome)
        requires
            plan.well_formed(),
            answers.len() == plan.pending.len(),
        ensures
            ({
                let said = labels_of(answer_texts(answers@));
                let c = old(cache).contents();
                &&& views(r.names@) == told_apart(
                    named(views(plan.names@), plan.clusters(), agreed(c, plan.keys(), said)),
                )
                &&& r.names.len() == plan.names.len()
                &&& forall|i: int, j: int|
                    0 <= i < j < r.names@.len() ==> r.names@[i]@ != r.names@[j]@
                &&& r.labels_failed == unusable(said)
                &&& final(cache).contents() == remembered(c, plan.keys(), said)
            }),
    {
        let ghost said = labels_of(answer_texts(answers@));
        let ghost clusters = plan.clusters();
        let ghost keys = plan.keys();
        let ghost first = views(plan.names@);
        let ghost c = cache.contents();
        let ghost come_to = agreed(c, keys, said);
        proof {
            lemma_agreed_len(c, keys, said);
        }
        let NamePlan { names, requests: _, pending, cache_hits: _ } = plan;
        let mut names = names;
        let mut labels_failed: usize = 0;
        let mut j: usize = 0;
        while j < pending.len()
            invariant
                j <= pending.len() == answers.len(),
                names.len() == first.len(),
                names.len() < usize::MAX,
                forall|k: int|
                    0 <= k < pending.len() ==> (#[trigger] pending[k]).cluster < names.len(),
                said == labels_of(answer_texts(answers@)),
                clusters == pending@.map_values(|p: PendingName| p.cluster as int),
                keys == pending@.map_values(|p: PendingName| p.key@),
                come_to == agreed(c, keys, said),
                come_to.len() == said.len() == pending.len(),
                views(names@) == named(first, clusters.take(j as int), come_to.take(j as int)),
                labels_failed == unusable(said.take(j as int)),
                labels_failed <= j,
                cache.contents() == remembered(c, keys.take(j as int), said.take(j as int)),
            decreases pending.len() - j,
        {
            assert(said.take(j + 1).drop_last() == said.take(j as int));
            assert(clusters.take(j + 1).drop_last() == clusters.take(j as int));
            assert(keys.take(j + 1).drop_last() == keys.take(j as int));
            assert(answer_texts(answers@)[j as int] == answer_text(answers[j as int]));
            let cluster: usize = pending[j].cluster;
            assert(clusters[j as int] == cluster);
            assert(keys[j as int] == pending[j as int].key@);
            let label: Option<String> = match &answers[j] {
                Ok(completion) => parse_label(completion.text.as_str()),
                Err(_) => None,
            };
            assert(opt_view(label) == said[j as int]);
            assert(come_to.take(j + 1).drop_last() == come_to.take(j as int));
            proof {
                lemma_agreed_prefix(c, keys, said, j as int);
            }
            let ghost before = views(names@);
            match label {
                Some(label) => {
                    let label = keep_first(cache, pending[j].key.copy(), label);
                    names.set(cluster, label);
                    assert(views(names@) == before.update(cluster as int, label@));
                },
                None => {
                    labels_failed = labels_failed + 1;
                    let name = fallback_name(cluster);
                    names.set(cluster, name);
                    assert(views(names@) == before.update(cluster as int, name@));
                },
            }
            j += 1;
        }
        assert(come_to.take(j as int) == come_to);
        assert(said.take(j as int) == said);
        assert(clusters.take(j as int) == clusters);
        assert(keys.take(j as int) == keys);
        NameOutcome { names: deduplicate(names), labels_failed }
    }
}

/// The label of each document: the name of its group.
pub fn document_labels(hashes: &Vec<u64>, clustering: &Clustering, names: &Vec<String>) -> (r: HashMap<
    u64,
    String,
>)
    requires
        clustering.well_formed(),
        clustering.assignments.len() == hashes.len(),
        names.len() == clustering.k,
        forall|i: int, j: int| 0 <= i < j < hashes.len() ==> hashes[i] != hashes[j],
    ensures
        forall|h: u64| #[trigger] r@.contains_key(h) <==> hashes@.contains(h),
        forall|i: int|
            0 <= i < hashes.len() ==> r@[#[trigger] hashes@[i]]@
                == names[clustering.assignments[i] as int]@,
{
    let mut labels: HashMap<u64, String> = HashMap::new();
    let mut i: usize = 0;
    while i < hashes.len()
        invariant
            clustering.well_formed(),
            clustering.assignments.len() == hashes.len(),
            names.len() == clustering.k,
            forall|a: int, b: int| 0 <= a < b < hashes.len() ==> hashes[a] != hashes[b],
            i <= hashes.len(),
            forall|h: u64| #[trigger]
                labels@.contains_key(h) <==> hashes@.take(i as int).contains(h),
            forall|a: int|
                0 <= a < i ==> labels@[#[trigger] hashes@[a]]@
                    == names[clustering.assignments[a] as int]@,
        decreases hashes.len() - i,
    {
        let cluster: usize = clustering.assignments[i];
        let ghost before = labels@;
        labels.insert(hashes[i], names[cluster].clone());
        let ghost was = hashes@.take(i as int);
        let ghost now = hashes@.take(i + 1);
        assert forall|h: u64| #[trigger] labels@.contains_key(h) <==> now.contains(h) by {
            assert(before.contains_key(h) <==> was.contains(h));
            if was.contains(h) {
                let k = choose|k: int| 0 <= k < was.len() && was[k] == h;
                assert(now[k] == h);
            }
            if now.contains(h) && h != hashes@[i as int] {
                let k = choose|k: int| 0 <= k < now.len() && now[k] == h;
                assert(was[k] == h);
            }
            if h == hashes@[i as int] {
                assert(now[i as int] == h);
            }
        }
        i += 1;
    }
    assert(hashes@.take(i as int) == hashes@);
    labels
}

/// The label column of a batch: NULL for a NULL text, and for a document the
/// index never saw.
pub fn with_labels(labels: &HashMap<u64, String>, texts: &Vec<Option<String>>) -> (r: Vec<
    Option<String>,
>)
    ensures
        r.len() == texts.len(),
        forall|i: int|
            0 <= i < texts.len() ==> opt_view(#[trigger] r[i]) == (match opt_views(texts@)[i] {
                Some(t) => if labels@.contains_key(hash_of(t)) {
                    Some(labels@[hash_of(t)]@)
                } else {
                    None
                },
                None => None,
            }),
{
    let mut column: Vec<Option<String>> = Vec::new();
    let mut i: usize = 0;
    while i < texts.len()
        invariant
            i <= texts.len(),
            column.len() == i,
            forall|k: int|
                0 <= k < i ==> opt_view(#[trigger] column[k]) == (match opt_views(texts@)[k] {
                    Some(t) => if labels@.contains_key(hash_of(t)) {
                        Some(labels@[hash_of(t)]@)
                    } else {
                        None
                    },
                    None => None,
                }),
        decreases texts.len() - i,
    {
        let cell: Option<String> = match &texts[i] {
            Some(text) => match labels.get(&doc_hash(text.as_str())) {
                Some(label) => Some(label.clone()),
                None => None,
            },
            None => None,
        };
        column.push(cell);
        i += 1;
    }
    column
}

proof fn lemma_named(
    names: Seq<Seq<char>>,
    clusters: Seq<int>,
    labels: Seq<Option<Seq<char>>>,
    i: int,
)
    requires
        clusters.len() == labels.len(),
        0 <= i < names.len(),
        forall|j: int| 0 <= j < clusters.len() ==> 0 <= #[trigger] clusters[j] < names.len(),
        forall|a: int, b: int| 0 <= a < b < clusters.len() ==> clusters[a] < clusters[b],
    ensures
        named(names, clusters, labels).len() == names.len(),
        !clusters.contains(i) ==> named(names, clusters, labels)[i] == names[i],
        forall|j: int|
            0 <= j < clusters.len() && #[trigger] clusters[j] == i && labels[j] is Some ==> named(
                names,
                clusters,
                labels,
            )[i] == labels[j]->0,
    decreases labels.len(),
{
    if labels.len() > 0 {
        let cs = clusters.drop_last();
        let n = clusters.len() - 1;
        assert forall|j: int| 0 <= j < cs.len() implies 0 <= #[trigger] cs[j] < names.len() by {
            assert(cs[j] == clusters[j]);
        }
        lemma_named(names, cs, labels.drop_last(), i);
        if !clusters.contains(i) {
            assert(clusters[n] != i);
            assert forall|j: int| 0 <= j < cs.len() implies cs[j] != i by {
                assert(clusters[j] == cs[j]);
            }
        }
        assert forall|j: int|
            0 <= j < clusters.len() && #[trigger] clusters[j] == i && labels[j]
                is Some implies named(names, clusters, labels)[i] == labels[j]->0 by {
            if j < n {
                assert(cs[j] == i);
            }
        }
    }
}

/// The same grouping always gets the same name: a group that the cache or the
/// model named has that name the next time, and is not asked about again.
pub proof fn a_group_keeps_its_name(
    keys: Seq<Option<KeyView>>,
    c: Contents,
    names: Seq<Seq<char>>,
    said: Seq<Option<Seq<char>>>,
    i: int,
)
    requires
        names.len() == keys.len(),
        forall|k: int|
            0 <= k < keys.len() ==> #[trigger] names[k] == Grouper::first_name(keys[k], k, c),
        said.len() == misses(keys, c).len(),
        0 <= i < keys.len(),
        keys[i] is Some,
        forall|j: int|
            0 <= j < said.len() && #[trigger] misses(keys, c)[j] == i ==> said[j] is Some,
    ensures
        ({
            let after = remembered(c, missed_keys(keys, c), said);
            let come_to = agreed(c, missed_keys(keys, c), said);
            &&& known(after, keys[i]->0) is Some
            &&& Grouper::first_name(keys[i], i, after) == named(names, misses(keys, c), come_to)[i]
        }),
{
    let open = misses(keys, c);
    let asked = missed_keys(keys, c);
    let after = remembered(c, asked, said);
    let come_to = agreed(c, asked, said);
    let k = keys[i]->0;
    misses_are_the_unanswered(keys, c);
    lemma_agreed_len(c, asked, said);
    lemma_named(names, open, come_to, i);
    if known(c, k) is Some {
        answers_stay_answered(c, asked, said, k);
        if open.contains(i) {
            let j = choose|j: int| 0 <= j < open.len() && open[j] == i;
            assert(keys[open[j]] is Some);
        }
    } else {
        assert(open.contains(i));
        let j = choose|j: int| 0 <= j < open.len() && open[j] == i;
        assert(asked[j] == k);
        assert(said[j] is Some);
        usable_values_are_cached(c, asked, said, j);
    }
}

/// A group is kept under the same entry however its documents are numbered: its
/// provenance depends on its members alone.
pub proof fn a_grouping_is_keyed_by_its_members(g: &Grouper, a: Seq<u64>, b: Seq<u64>)
    requires
        a.to_multiset() == b.to_multiset(),
    ensures
        g.key(sorted(a)) == g.key(sorted(b)),
{
    sorting_keeps_the_values(a);
    sorting_keeps_the_values(b);
    assert(vstd::relations::total_ordering(crate::sort::order::<u64>()));
    vstd::seq_lib::lemma_sorted_unique(sorted(a), sorted(b), crate::sort::order::<u64>());
}

/// A label is the model's own: the text under `label`, without the white space at
/// its ends, and never blank.
pub proof fn a_label_is_the_model_s_own(answer: Seq<char>, object: Json, said: Seq<char>)
    requires
        object_in(answer) == Some(object),
        object.member("label"@) == Some(Json::Text(said)),
    ensures
        label_of(answer) matches Some(label) ==> label.len() > 0 && occurs_in(label, said),
        said.len() > 0 && !is_space(said[0]) && !is_space(said.last()) ==> label_of(answer) == Some(
            said,
        ),
        (forall|i: int| 0 <= i < said.len() ==> is_space(#[trigger] said[i])) ==> label_of(
            answer,
        ) is None,
{
    what_is_trimmed_stands_in_the_text(said, Class::Space);
    if said.len() > 0 && !is_space(said[0]) && !is_space(said.last()) {
        trimming_leaves_the_core(Seq::empty(), said, Seq::empty(), Class::Space);
        assert(Seq::empty() + said + Seq::empty() =~= said);
    }
    if forall|i: int| 0 <= i < said.len() ==> is_space(#[trigger] said[i]) {
        trimming_leaves_the_core(said, Seq::empty(), Seq::empty(), Class::Space);
        assert(said + Seq::empty() + Seq::empty() =~= said);
    }
}

/// A group that could not be named is named by its position, counted from one, so
/// two such groups never share a name.
pub proof fn positions_tell_groups_apart(a: nat, b: nat)
    ensures
        fallback(a) == fallback(b) ==> a == b,
        parsed_number(fallback(a).skip("group "@.len() as int)) == Some(a + 1),
{
    let head = "group "@;
    assert(fallback(a).skip(head.len() as int) =~= decimal(a + 1));
    assert(fallback(b).skip(head.len() as int) =~= decimal(b + 1));
    decimal_reads_back(a + 1);
    decimal_reads_back(b + 1);
}

/// The model reads the documents that stand for the group, each of them whole.
pub proof fn a_naming_call_reads_the_representatives(
    hashes: Seq<u64>,
    texts: Map<u64, String>,
    points: Seq<usize>,
    j: int,
)
    requires
        0 <= j < points.len(),
    ensures
        occurs_in(
            texts[hashes[points[j] as int]]@,
            Grouper::request(joined(excerpts(hashes, texts, points), MEMBER_SEPARATOR@)).input,
        ),
{
    joining_keeps_every_part(excerpts(hashes, texts, points), MEMBER_SEPARATOR@, j);
}

/// A name is kept for one set of documents and one model: another model, or members
/// of another hash, have another key; and a name is never kept where a verdict or a
/// score is.
pub proof fn a_name_belongs_to_its_members(
    a: &Grouper,
    b: &Grouper,
    members_a: Seq<u64>,
    members_b: Seq<u64>,
    query: Seq<char>,
    input: Seq<char>,
    version: Seq<char>,
)
    ensures
        a.model_id@ != b.model_id@ || list_hash(members_a) != list_hash(members_b) ==> a.key(
            members_a,
        ) != b.key(members_b),
        a.key(members_a) != means_key(query, input, b.model_id@, version),
        a.key(members_a) != relevance_key(query, input, b.model_id@),
{
    let x = a.key(members_a);
    let y = b.key(members_b);
    assert(x.model_id == a.model_id@ && y.model_id == b.model_id@);
    reveal_strlit("label");
    reveal_strlit("means");
    reveal_strlit("relevance");
    assert("label"@[0] == 'l');
    assert("means"@[0] == 'm');
    assert("relevance"@.len() == 9 && "label"@.len() == 5);
    assert(x.field == "label"@);
    assert(means_key(query, input, b.model_id@, version).field == "means"@);
    assert(relevance_key(query, input, b.model_id@).field == "relevance"@);
}

/// A label keeps its name in front: it is the name itself where no label before it
/// is, and the name with a number, from two on, in parentheses where one is.
pub proof fn a_label_begins_with_its_name(names: Seq<Seq<char>>, i: int)
    requires
        0 <= i < names.len(),
    ensures
        told_apart(names).len() == names.len(),
        ({
            let label = told_apart(names)[i];
            let before = told_apart(names).take(i);
            &&& names[i].len() <= label.len()
            &&& label.take(names[i].len() as int) == names[i]
            &&& !before.contains(names[i]) ==> label == names[i]
            &&& before.contains(names[i]) ==> exists|n: nat|
                n >= 2 && label == names[i] + " ("@ + #[trigger] decimal(n) + ")"@
                    && !before.contains(label) && forall|m: nat|
                    2 <= m < n ==> before.contains(names[i] + " ("@ + #[trigger] decimal(m) + ")"@)
        }),
    decreases names.len(),
{
    let rest = names.drop_last();
    let last = names.len() - 1;
    labels_are_told_apart(names);
    labels_are_told_apart(rest);
    if i < last {
        a_label_begins_with_its_name(rest, i);
        assert(told_apart(names).take(i) =~= told_apart(rest).take(i));
        assert(rest[i] == names[i]);
    } else {
        let before = told_apart(rest);
        let name = names[i];
        let label = told_apart(names)[i];
        assert(told_apart(names).take(i) =~= before);
        if before.contains(name) {
            lemma_free(before, name, 2);
            let n = choose|n: nat| first_free(before, name, n);
            assert(first_free(before, name, n));
            assert(label == name + " ("@ + decimal(n) + ")"@);
            assert(label.take(name.len() as int) =~= name);
            assert forall|m: nat| 2 <= m < n implies before.contains(
                name + " ("@ + #[trigger] decimal(m) + ")"@,
            ) by {
                assert(before.contains(numbered(name, m)));
            }
        } else {
            assert(label.take(name.len() as int) =~= name);
        }
    }
}

/// A group that was asked about takes its own label, and its positional name where
/// it has none; every other group keeps the name that it had.
pub proof fn a_group_takes_its_own_label(
    names: Seq<Seq<char>>,
    clusters: Seq<int>,
    labels: Seq<Option<Seq<char>>>,
    i: int,
)
    requires
        clusters.len() == labels.len(),
        0 <= i < names.len(),
        forall|j: int| 0 <= j < clusters.len() ==> 0 <= #[trigger] clusters[j] < names.len(),
        forall|a: int, b: int| 0 <= a < b < clusters.len() ==> clusters[a] < clusters[b],
    ensures
        named(names, clusters, labels).len() == names.len(),
        !clusters.contains(i) ==> named(names, clusters, labels)[i] == names[i],
        forall|j: int|
            0 <= j < clusters.len() && #[trigger] clusters[j] == i ==> named(
                names,
                clusters,
                labels,
            )[i] == (match labels[j] {
                Some(label) => label,
                None => "group "@ + decimal((i + 1) as nat),
            }),
    decreases labels.len(),
{
    lemma_named(names, clusters, labels, i);
    if labels.len() > 0 {
        let cs = clusters.drop_last();
        let n = clusters.len() - 1;
        assert forall|j: int| 0 <= j < cs.len() implies 0 <= #[trigger] cs[j] < names.len() by {
            assert(cs[j] == clusters[j]);
        }
        a_group_takes_its_own_label(names, cs, labels.drop_last(), i);
        assert forall|j: int| 0 <= j < clusters.len() && #[trigger] clusters[j] == i implies named(
            names,
            clusters,
            labels,
        )[i] == (match labels[j] {
            Some(label) => label,
            None => "group "@ + decimal((i + 1) as nat),
        }) by {
            if j < n {
                assert(cs[j] == i);
                assert(clusters[j] < clusters[n]);
            }
        }
    }
}

/// The documents of a column are those that the index knows of its rows, each once;
/// the text of each is that of a row; and the rows with a text that the index has
/// never seen are counted.
pub proof fn documents_come_from_the_rows(
    texts: Seq<Option<Seq<char>>>,
    indexed: Set<u64>,
    h: u64,
)
    ensures
        indexed_documents(texts, indexed).no_duplicates(),
        indexed_documents(texts, indexed).contains(h) <==> indexed.contains(h) && exists|i: int|
            0 <= i < texts.len() && (#[trigger] texts[i]) is Some && hash_of(texts[i]->0) == h,
        text_with(texts, h) matches Some(t) ==> hash_of(t) == h && texts.contains(Some(t)),
        unindexed(texts, indexed) == texts.filter(
            |t: Option<Seq<char>>| t is Some && !indexed.contains(hash_of(t->0)),
        ).len(),
    decreases texts.len(),
{
    reveal(Seq::filter);
    lemma_documents_differ(texts, indexed);
    lemma_documents_are_those_of_rows(texts, indexed, h);
    if indexed_documents(texts, indexed).contains(h) {
        let i = choose|i: int| 0 <= i < texts.len() && #[trigger] row_holds(texts, i, h);
        assert(texts[i] is Some);
    }
    if exists|i: int|
        0 <= i < texts.len() && (#[trigger] texts[i]) is Some && hash_of(texts[i]->0) == h {
        let i = choose|i: int|
            0 <= i < texts.len() && (#[trigger] texts[i]) is Some && hash_of(texts[i]->0) == h;
        assert(row_holds(texts, i, h));
    }
    if texts.len() > 0 {
        let rest = texts.drop_last();
        documents_come_from_the_rows(rest, indexed, h);
        if let Some(t) = text_with(texts, h) {
            if texts.last() == Some(t) {
                assert(texts[texts.len() - 1] == Some(t));
            } else {
                let k = choose|k: int| 0 <= k < rest.len() && rest[k] == Some(t);
                assert(texts[k] == Some(t));
            }
        }
    }
}

/// Every answer names its own group: the label that it gives, or none where it gives
/// none or did not come.
pub proof fn an_answer_names_its_own_group(answers: Seq<Option<Seq<char>>>, i: int)
    requires
        0 <= i < answers.len(),
    ensures
        labels_of(answers).len() == answers.len(),
        answers[i] matches Some(text) ==> labels_of(answers)[i] == label_of(text),
        answers[i] is None ==> labels_of(answers)[i] is None,
{
}

/// A group is known by its documents in ascending order, each of its members and no
/// other.
pub proof fn members_stand_in_order(hashes: Seq<u64>, assignments: Seq<usize>, cluster: int, h: u64)
    ensures
        ({
            let list = member_hashes(hashes, assignments, cluster);
            &&& list.len() == members_of(assignments, cluster).len()
            &&& forall|a: int, b: int| 0 <= a < b < list.len() ==> list[a] <= list[b]
            &&& list.contains(h) <==> exists|i: int|
                0 <= i < members_of(assignments, cluster).len() && hashes[#[trigger] members_of(
                    assignments,
                    cluster,
                )[i]] == h
        }),
{
    let members = members_of(assignments, cluster);
    let own = members.map_values(|p: int| hashes[p]);
    let list = member_hashes(hashes, assignments, cluster);
    sorting_keeps_the_values(own);
    assert forall|a: int, b: int| 0 <= a < b < list.len() implies list[a] <= list[b] by {
        assert(crate::sort::order::<u64>()(list[a], list[b]));
    }
    if own.contains(h) {
        let i = own.index_of(h);
        assert(hashes[members[i]] == h);
    }
    if exists|i: int| 0 <= i < members.len() && hashes[#[trigger] members[i]] == h {
        let i = choose|i: int| 0 <= i < members.len() && hashes[#[trigger] members[i]] == h;
        assert(own[i] == h);
    }
}

}
