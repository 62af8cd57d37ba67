//! Field-level cache with provenance keys.
//!
//! Pay once per `(type version, field, input value, model, prompt version)`,
//! shared across every query that ever asks again. First evaluation wins, so
//! re-running a query is deterministic even though the model isn't, and the
//! cache doubles as a checkpoint for resumed jobs.

use std::collections::HashMap;
use std::hash::{DefaultHasher, Hash};

use vstd::bytes::{spec_u64_to_le_bytes, u64_to_le_bytes};
use vstd::prelude::*;
use vstd::std_specs::hash::DefaultHasherAdditionalSpecFns;

use crate::model::ModelId;

verus! {

/// Full provenance of one model verdict. Editing one field's doc line bumps
/// that field's `type_version` and invalidates exactly its entries.
#[derive(Debug, Clone, PartialEq, Eq, Hash)]
pub struct CacheKey {
    /// Semantic type name and version, or the `MEANS` condition for predicates.
    pub type_version: String,
    pub field: String,
    /// Hash of the input value (a transcript, a chunk set).
    pub input_hash: u64,
    pub model_id: ModelId,
    /// Version of the prompt-synthesis scheme itself.
    pub prompt_version: String,
}

/// What is kept for a row: the value that was decoded, or the error that the row
/// failed with. A row's failure is kept too, and fails no query.
#[derive(Debug, Clone, PartialEq)]
pub enum CachedValue {
    Value(String),
    Error(String),
}

/// The provenance that a [`CacheKey`] stands for.
pub struct KeyView {
    pub type_version: Seq<char>,
    pub field: Seq<char>,
    pub input_hash: u64,
    pub model_id: Seq<char>,
    pub prompt_version: Seq<char>,
}

/// What a [`CachedValue`] stands for.
pub enum ValueView {
    Value(Seq<char>),
    Error(Seq<char>),
}

/// The content of a cache.
pub type Contents = Map<KeyView, ValueView>;

impl View for CacheKey {
    type V = KeyView;

    open spec fn view(&self) -> KeyView {
        KeyView {
            type_version: self.type_version@,
            field: self.field@,
            input_hash: self.input_hash,
            model_id: self.model_id@,
            prompt_version: self.prompt_version@,
        }
    }
}

impl View for CachedValue {
    type V = ValueView;

    open spec fn view(&self) -> ValueView {
        match self {
            CachedValue::Value(s) => ValueView::Value(s@),
            CachedValue::Error(s) => ValueView::Error(s@),
        }
    }
}

/// The entry under a key.
pub open spec fn entry(contents: Contents, key: KeyView) -> Option<ValueView> {
    if contents.contains_key(key) {
        Some(contents[key])
    } else {
        None
    }
}

/// The decoded value under a key: none where nothing is cached, or an error.
pub open spec fn known(contents: Contents, key: KeyView) -> Option<Seq<char>> {
    match entry(contents, key) {
        Some(ValueView::Value(s)) => Some(s),
        _ => None,
    }
}

impl CacheKey {
    /// Whether two keys stand for the same provenance.
    pub fn same(&self, other: &CacheKey) -> (r: bool)
        ensures
            r == (self@ == other@),
    {
        self.type_version == other.type_version && self.field == other.field && self.input_hash
            == other.input_hash && self.model_id.0 == other.model_id.0 && self.prompt_version
            == other.prompt_version
    }

    /// A copy of the key.
    pub fn copy(&self) -> (r: CacheKey)
        ensures
            r@ == self@,
    {
        CacheKey {
            type_version: self.type_version.clone(),
            field: self.field.clone(),
            input_hash: self.input_hash,
            model_id: self.model_id.copy(),
            prompt_version: self.prompt_version.clone(),
        }
    }
}

impl CachedValue {
    /// A copy of the value.
    pub fn copy(&self) -> (r: CachedValue)
        ensures
            r@ == self@,
    {
        match self {
            CachedValue::Value(s) => CachedValue::Value(s.clone()),
            CachedValue::Error(s) => CachedValue::Error(s.clone()),
        }
    }
}

/// A store of verdicts. To the operators it is a map from provenance to value.
pub trait SemanticCache {
    /// What the cache holds.
    spec fn contents(&self) -> Contents;

    fn get(&self, key: &CacheKey) -> (r: Option<CachedValue>)
        ensures
            match r {
                Some(v) => entry(self.contents(), key@) == Some(v@),
                None => entry(self.contents(), key@) is None,
            },
    ;

    fn put(&mut self, key: CacheKey, value: CachedValue)
        ensures
            final(self).contents() == old(self).contents().insert(key@, value@),
    ;
}

/// The decoded value that a cache holds under a key.
pub fn lookup<C: SemanticCache>(cache: &C, key: &CacheKey) -> (r: Option<String>)
    ensures
        crate::text::opt_view(r) == known(cache.contents(), key@),
{
    match cache.get(key) {
        Some(CachedValue::Value(s)) => Some(s),
        _ => None,
    }
}

/// One entry of an [`InMemoryCache`].
#[derive(Debug)]
struct Entry {
    key: CacheKey,
    value: CachedValue,
}

/// Process-local cache, enough for tests and single-session use. A persistent
/// (disk-backed) implementation is what makes the cache compound across
/// sessions and act as a checkpoint.
///
/// The entries are bucketed by the hash of their input.
#[derive(Debug)]
pub struct InMemoryCache {
    buckets: HashMap<u64, Vec<Entry>>,
}

/// Where the first entry of a key stands in a bucket.
spec fn find(bucket: Seq<Entry>, key: KeyView) -> Option<int>
    decreases bucket.len(),
{
    if bucket.len() == 0 {
        None
    } else {
        match find(bucket.drop_last(), key) {
            Some(i) => Some(i),
            None => if bucket.last().key@ == key {
                Some(bucket.len() - 1)
            } else {
                None
            },
        }
    }
}

proof fn lemma_find_bounds(bucket: Seq<Entry>, key: KeyView)
    ensures
        find(bucket, key) matches Some(i) ==> 0 <= i < bucket.len() && bucket[i].key@ == key,
    decreases bucket.len(),
{
    if bucket.len() > 0 {
        lemma_find_bounds(bucket.drop_last(), key);
    }
}

/// Replacing an entry by one of the same key leaves every other key where it was.
proof fn lemma_find_update(bucket: Seq<Entry>, at: int, e: Entry, key: KeyView)
    requires
        0 <= at < bucket.len(),
        bucket[at].key@ == e.key@,
    ensures
        find(bucket.update(at, e), key) == find(bucket, key),
    decreases bucket.len(),
{
    if at == bucket.len() - 1 {
        assert(bucket.update(at, e).drop_last() == bucket.drop_last());
    } else {
        assert(bucket.update(at, e).drop_last() == bucket.drop_last().update(at, e));
        lemma_find_update(bucket.drop_last(), at, e, key);
    }
}

impl InMemoryCache {
    spec fn bucket(&self, hash: u64) -> Seq<Entry> {
        if self.buckets@.contains_key(hash) {
            self.buckets@[hash]@
        } else {
            Seq::empty()
        }
    }

    /// An empty cache.
    pub fn new() -> (r: InMemoryCache)
        ensures
            r.contents() == Map::<KeyView, ValueView>::empty(),
    {
        let r = InMemoryCache { buckets: HashMap::new() };
        assert(r.contents() =~= Map::<KeyView, ValueView>::empty());
        r
    }
}

impl Default for InMemoryCache {
    fn default() -> (r: InMemoryCache)
        ensures
            r.contents() == Map::<KeyView, ValueView>::empty(),
    {
        InMemoryCache::new()
    }
}

/// Where an entry of the key stands in a bucket.
fn position(bucket: &Vec<Entry>, key: &CacheKey) -> (r: Option<usize>)
    ensures
        match r {
            Some(i) => find(bucket@, key@) == Some(i as int),
            None => find(bucket@, key@) is None,
        },
{
    let mut i: usize = 0;
    while i < bucket.len()
        invariant
            i <= bucket.len(),
            find(bucket@.take(i as int), key@) is None,
        decreases bucket.len() - i,
    {
        assert(bucket@.take(i + 1).drop_last() == bucket@.take(i as int));
        if bucket[i].key.same(key) {
            proof {
                lemma_find_prefix(bucket@, i + 1, key@);
            }
            return Some(i);
        }
        i += 1;
    }
    assert(bucket@.take(i as int) == bucket@);
    None
}

/// What is found in the first entries is found in all of them.
proof fn lemma_find_prefix(bucket: Seq<Entry>, n: int, key: KeyView)
    requires
        0 <= n <= bucket.len(),
        find(bucket.take(n), key) is Some,
    ensures
        find(bucket, key) == find(bucket.take(n), key),
    decreases bucket.len(),
{
    if n == bucket.len() {
        assert(bucket.take(n) == bucket);
    } else {
        assert(bucket.drop_last().take(n) == bucket.take(n));
        lemma_find_prefix(bucket.drop_last(), n, key);
    }
}

impl SemanticCache for InMemoryCache {
    closed spec fn contents(&self) -> Contents {
        Map::new(
            |k: KeyView| find(self.bucket(k.input_hash), k) is Some,
            |k: KeyView| self.bucket(k.input_hash)[find(self.bucket(k.input_hash), k)->0].value@,
        )
    }

    fn get(&self, key: &CacheKey) -> (r: Option<CachedValue>) {
        match self.buckets.get(&key.input_hash) {
            Some(bucket) => {
                match position(bucket, key) {
                    Some(i) => {
                        proof {
                            lemma_find_bounds(bucket@, key@);
                        }
                        Some(bucket[i].value.copy())
                    },
                    None => None,
                }
            },
            None => None,
        }
    }

    fn put(&mut self, key: CacheKey, value: CachedValue) {
        let ghost before = *self;
        let ghost k = key@;
        let ghost v = value@;
        let hash: u64 = key.input_hash;
        let mut bucket: Vec<Entry> = match self.buckets.remove(&hash) {
            Some(bucket) => bucket,
            None => Vec::new(),
        };
        assert(bucket@ == before.bucket(hash));
        let ghost had = bucket@;
        match position(&bucket, &key) {
            Some(i) => {
                proof {
                    lemma_find_bounds(bucket@, key@);
                }
                bucket.set(i, Entry { key, value });
            },
            None => {
                bucket.push(Entry { key, value });
            },
        }
        let ghost now = bucket@;
        self.buckets.insert(hash, bucket);
        proof {
            assert(self.bucket(hash) == now);
            assert forall|h: u64| h != hash implies self.bucket(h) == before.bucket(h) by {}
            let want = before.contents().insert(k, v);
            assert forall|q: KeyView|
                entry(self.contents(), q) == entry(want, q) && (self.contents().contains_key(q)
                    <==> want.contains_key(q)) by {
                if q.input_hash == hash {
                    lemma_find_bounds(had, q);
                    lemma_find_bounds(now, q);
                    match find(had, k) {
                        Some(at) => {
                            lemma_find_bounds(had, k);
                            assert(now == had.update(at, now[at]));
                            lemma_find_update(had, at, now[at], q);
                        },
                        None => {
                            assert(now.drop_last() == had);
                        },
                    }
                }
            }
            assert(self.contents() =~= want) by {
                assert forall|q: KeyView| self.contents().contains_key(q) implies self.contents()[q]
                    == want[q] by {
                    assert(entry(self.contents(), q) == entry(want, q));
                }
                assert forall|q: KeyView|
                    self.contents().contains_key(q) <==> want.contains_key(q) by {
                    assert(entry(self.contents(), q) == entry(want, q));
                }
            }
        }
    }
}

/// What `<str as Hash>::hash` writes to a hasher.
pub uninterp spec fn text_writes(s: Seq<char>) -> Seq<Seq<u8>>;

/// `<str as Hash>::hash`, into a `DefaultHasher`: writes that the text alone
/// decides are added to those made before.
#[verifier::external_body]
fn hash_text_into(text: &str, state: &mut DefaultHasher)
    ensures
        final(state)@ == old(state)@ + text_writes(text@),
{
    text.hash(state);
}

/// The hash under which an input is cached.
pub open spec fn input_hash(s: Seq<char>) -> u64 {
    DefaultHasher::spec_finish(text_writes(s))
}

/// The hash under which an input is cached.
pub fn hash_input(text: &str) -> (r: u64)
    ensures
        r == input_hash(text@),
        r == DefaultHasher::spec_finish(text_writes(text@)),
{
    let mut hasher = DefaultHasher::new();
    hash_text_into(text, &mut hasher);
    assert(hasher@ == text_writes(text@));
    std::hash::Hasher::finish(&hasher)
}

/// Some numbers, in eight bytes each, the lowest first.
pub open spec fn list_bytes(s: Seq<u64>) -> Seq<u8>
    decreases s.len(),
{
    if s.len() == 0 {
        Seq::empty()
    } else {
        list_bytes(s.drop_last()) + spec_u64_to_le_bytes(s.last())
    }
}

/// The hash under which a list of documents is cached: of how many there are, and
/// of the documents.
pub open spec fn list_hash(s: Seq<u64>) -> u64 {
    DefaultHasher::spec_finish(seq![spec_u64_to_le_bytes(s.len() as u64), list_bytes(s)])
}

/// The hash under which a list of documents is cached.
pub fn hash_list(list: &Vec<u64>) -> (r: u64)
    ensures
        r == list_hash(list@),
        r == DefaultHasher::spec_finish(
            seq![spec_u64_to_le_bytes(list@.len() as u64), list_bytes(list@)],
        ),
{
    let mut bytes: Vec<u8> = Vec::new();
    let mut i: usize = 0;
    while i < list.len()
        invariant
            i <= list.len(),
            bytes@ == list_bytes(list@.take(i as int)),
        decreases list.len() - i,
    {
        assert(list@.take(i + 1).drop_last() == list@.take(i as int));
        let mut number = u64_to_le_bytes(list[i]);
        bytes.append(&mut number);
        i += 1;
    }
    assert(list@.take(i as int) == list@);
    let count = u64_to_le_bytes(list.len() as u64);
    let mut hasher = DefaultHasher::new();
    std::hash::Hasher::write(&mut hasher, count.as_slice());
    std::hash::Hasher::write(&mut hasher, bytes.as_slice());
    assert(hasher@ =~= seq![spec_u64_to_le_bytes(list@.len() as u64), list_bytes(list@)]);
    std::hash::Hasher::finish(&hasher)
}

/// Lists of documents are written apart: eight bytes of each, in their order, so that
/// no two lists are written alike.
pub proof fn lists_are_written_apart(a: Seq<u64>, b: Seq<u64>, x: u64)
    ensures
        list_bytes(a).len() == 8 * a.len(),
        list_bytes(a.push(x)) == list_bytes(a) + spec_u64_to_le_bytes(x),
        list_bytes(a) == list_bytes(b) ==> a == b,
    decreases a.len(),
{
    vstd::bytes::lemma_auto_spec_u64_to_from_le_bytes();
    assert(a.push(x).drop_last() =~= a);
    lemma_eight_bytes_each(a);
    lemma_eight_bytes_each(b);
    if list_bytes(a) == list_bytes(b) && a.len() > 0 {
        let (c, d) = (a.drop_last(), b.drop_last());
        lists_are_written_apart(c, d, x);
        lemma_eight_bytes_each(c);
        lemma_eight_bytes_each(d);
        let n = 8 * c.len() as int;
        let (s, t) = (spec_u64_to_le_bytes(a.last()), spec_u64_to_le_bytes(b.last()));
        assert(list_bytes(a).take(n) =~= list_bytes(c));
        assert(list_bytes(b).take(n) =~= list_bytes(d));
        assert(list_bytes(a).skip(n) =~= s);
        assert(list_bytes(b).skip(n) =~= t);
        assert(vstd::bytes::spec_u64_from_le_bytes(s) == a.last());
        assert(vstd::bytes::spec_u64_from_le_bytes(t) == b.last());
        assert(a =~= c.push(a.last()));
        assert(b =~= d.push(b.last()));
    } else if a.len() == 0 && b.len() == 0 {
        assert(a =~= b);
    }
}

proof fn lemma_eight_bytes_each(a: Seq<u64>)
    ensures
        list_bytes(a).len() == 8 * a.len(),
    decreases a.len(),
{
    vstd::bytes::lemma_auto_spec_u64_to_from_le_bytes();
    if a.len() > 0 {
        lemma_eight_bytes_each(a.drop_last());
    }
}

/// A value is found under its own key as it was put there; an error is found as no
/// value; and what stands under other keys is as it was.
pub proof fn a_value_is_found_under_its_own_key(
    contents: Contents,
    key: KeyView,
    value: ValueView,
    other: KeyView,
)
    ensures
        entry(contents.insert(key, value), key) == Some(value),
        value matches ValueView::Value(s) ==> known(contents.insert(key, value), key) == Some(s),
        value is Error ==> known(contents.insert(key, value), key) is None,
        other != key ==> known(contents.insert(key, value), other) == known(contents, other),
        !contents.contains_key(key) ==> known(contents, key) is None,
{
}

}
