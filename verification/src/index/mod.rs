//! The semantic index (`CREATE SEMANTIC INDEX`).
//!
//! Chunk each document, embed every chunk, keep it fresh as rows arrive. It
//! pulls double duty: the same chunk vectors that pre-filter candidates also
//! tell the verify step which chunks to show the model.
//!
//! Documents are identified by [`doc_hash`] of their text value, not by row
//! position, which is robust to joins, projections and reordering, and lets the
//! pre-filter pass unindexed rows through to full-text verification instead of
//! silently dropping them.

pub mod chunk;
pub mod dedupe;
pub mod kmeans;
pub mod registry;
pub mod store;

use std::collections::HashSet;

use vstd::prelude::*;

use crate::number::Single;
use crate::text::{opt_view, views};

verus! {

/// The FNV-1a hash of some bytes, from the state `h` on.
pub open spec fn fnv1a(h: u64, bytes: Seq<u8>) -> u64
    decreases bytes.len(),
{
    if bytes.len() == 0 {
        h
    } else {
        (fnv1a(h, bytes.drop_last()) ^ (bytes.last() as u64)).wrapping_mul(0x0000_0100_0000_01b3)
    }
}

/// The identity of a document: FNV-1a over the UTF-8 bytes of its text.
pub open spec fn hash_of(text: Seq<char>) -> u64 {
    fnv1a(0xcbf2_9ce4_8422_2325, vstd::utf8::encode_utf8(text))
}

/// Stable identity of a document: FNV-1a over the text value. Index entries
/// outlive the process, so this must never change: `DefaultHasher` (which keys
/// the in-memory verdict cache) is only stable within one binary and must not
/// leak into the index.
pub fn doc_hash(text: &str) -> (r: u64)
    ensures
        r == hash_of(text@),
{
    let bytes = text.as_bytes();
    let mut hash: u64 = 0xcbf2_9ce4_8422_2325;
    let mut i: usize = 0;
    while i < bytes.len()
        invariant
            i <= bytes.len(),
            hash == fnv1a(0xcbf2_9ce4_8422_2325, bytes@.take(i as int)),
        decreases bytes.len() - i,
    {
        assert(bytes@.take(i + 1).drop_last() == bytes@.take(i as int));
        hash = (hash ^ (bytes[i] as u64)).wrapping_mul(0x0000_0100_0000_01b3);
        i += 1;
    }
    assert(bytes@.take(i as int) == bytes@);
    hash
}

/// A hit from an index search: which document, which chunk, how close, and the
/// chunk text itself, doubling as the verify stage's evidence.
#[derive(Debug, Clone, PartialEq)]
pub struct ChunkHit {
    pub doc_hash: u64,
    /// Which chunk of that document matched.
    pub chunk_index: usize,
    /// Cosine similarity to the query; thresholds are best-effort until
    /// `WITH RECALL` calibration.
    pub score: Single,
    pub text: String,
}

/// Knobs for the index pre-filter stage.
#[derive(Debug, Clone, Copy, PartialEq, Eq, Structural)]
pub struct SearchParams {
    /// Chunk hits fetched from the vector scan before the floor is applied.
    pub fetch_k: usize,
    /// Minimum cosine similarity for a chunk to count as a hit.
    pub score_floor: Single,
    /// Chunks per document handed to the verify stage as evidence.
    pub chunks_per_doc: usize,
}

impl Default for SearchParams {
    /// The floor is 0.35 in single precision.
    fn default() -> (r: SearchParams)
        ensures
            r.fetch_k == 256,
            r.score_floor.bits == 0x3eb3_3333,
            r.chunks_per_doc == 3,
    {
        SearchParams { fetch_k: 256, score_floor: Single { bits: 0x3eb3_3333 }, chunks_per_doc: 3 }
    }
}

/// The texts of a column, as views.
pub open spec fn opt_views(texts: Seq<Option<String>>) -> Seq<Option<Seq<char>>> {
    texts.map_values(|t: Option<String>| opt_view(t))
}

/// The hashes of the documents among some texts.
pub open spec fn hashes_of(texts: Seq<Seq<char>>) -> Set<u64> {
    texts.map_values(|t: Seq<char>| hash_of(t)).to_set()
}

/// The distinct documents of a column, in the order in which they first appear:
/// NULLs are left out, and so is a text whose hash has been seen.
pub open spec fn distinct_documents(texts: Seq<Option<Seq<char>>>) -> Seq<Seq<char>>
    decreases texts.len(),
{
    if texts.len() == 0 {
        Seq::empty()
    } else {
        let before = distinct_documents(texts.drop_last());
        match texts.last() {
            Some(t) => if hashes_of(before).contains(hash_of(t)) {
                before
            } else {
                before.push(t)
            },
            None => before,
        }
    }
}

proof fn lemma_hashes_push(texts: Seq<Seq<char>>, t: Seq<char>)
    ensures
        hashes_of(texts.push(t)) == hashes_of(texts).insert(hash_of(t)),
{
    let f = |t: Seq<char>| hash_of(t);
    let a = texts.map_values(f);
    let b = texts.push(t).map_values(f);
    assert(b == a.push(hash_of(t)));
    assert forall|h: u64| b.to_set().contains(h) <==> a.to_set().insert(hash_of(t)).contains(h) by {
        if b.contains(h) {
            let i = choose|i: int| 0 <= i < b.len() && b[i] == h;
            if i < a.len() {
                assert(a[i] == h);
            }
        }
        if a.contains(h) {
            let i = choose|i: int| 0 <= i < a.len() && a[i] == h;
            assert(b[i] == h);
        }
        if h == hash_of(t) {
            assert(b[a.len() as int] == h);
        }
    }
    assert(b.to_set() =~= a.to_set().insert(hash_of(t)));
}

/// All non-null texts of a column, deduped by [`doc_hash`], at most `limit`.
pub fn distinct_texts(texts: &Vec<Option<String>>, limit: Option<usize>) -> (r: Vec<String>)
    ensures
        ({
            let all = distinct_documents(opt_views(texts@));
            match limit {
                Some(n) if n > 0 && n < all.len() => views(r@) == all.take(n as int),
                Some(0) => views(r@) == all.take(if all.len() == 0 {
                    0
                } else {
                    1
                }),
                _ => views(r@) == all,
            }
        }),
{
    let mut seen: HashSet<u64> = HashSet::new();
    let mut out: Vec<String> = Vec::new();
    let ghost col = opt_views(texts@);
    let mut i: usize = 0;
    assert(seen@ =~= hashes_of(views(out@)));
    while i < texts.len()
        invariant
            i <= texts.len(),
            col == opt_views(texts@),
            views(out@) == distinct_documents(col.take(i as int)),
            seen@ == hashes_of(views(out@)),
            limit matches Some(n) ==> out.len() < n || (n == 0 && out.len() == 0),
        decreases texts.len() - i,
    {
        assert(col.take(i + 1).drop_last() == col.take(i as int));
        if let Some(text) = &texts[i] {
            let hash = doc_hash(text.as_str());
            if !seen.contains(&hash) {
                proof {
                    lemma_hashes_push(views(out@), text@);
                }
                let ghost before = views(out@);
                seen.insert(hash);
                out.push(text.clone());
                assert(views(out@) == before.push(text@));
                if let Some(n) = limit {
                    if out.len() >= n {
                        proof {
                            lemma_distinct_prefix(col, i + 1);
                        }
                        return out;
                    }
                }
            }
        }
        i += 1;
    }
    assert(col.take(i as int) == col);
    out
}

/// The documents of the first rows come first among the documents of all rows.
proof fn lemma_distinct_prefix(texts: Seq<Option<Seq<char>>>, n: int)
    requires
        0 <= n <= texts.len(),
    ensures
        distinct_documents(texts.take(n)).len() <= distinct_documents(texts).len(),
        distinct_documents(texts).take(distinct_documents(texts.take(n)).len() as int)
            == distinct_documents(texts.take(n)),
    decreases texts.len(),
{
    if n == texts.len() {
        assert(texts.take(n) == texts);
        let all = distinct_documents(texts);
        assert(all.take(all.len() as int) == all);
    } else {
        assert(texts.drop_last().take(n) == texts.take(n));
        lemma_distinct_prefix(texts.drop_last(), n);
        let k = distinct_documents(texts.take(n)).len() as int;
        let before = distinct_documents(texts.drop_last());
        assert(distinct_documents(texts).take(k) == before.take(k));
    }
}

/// The documents that an index has not seen, in order.
pub open spec fn unseen(texts: Seq<Seq<char>>, indexed: Set<u64>) -> Seq<Seq<char>> {
    texts.filter(|t: Seq<char>| !indexed.contains(hash_of(t)))
}

/// Incremental maintenance: the documents that the index has not seen.
pub fn refresh_texts(texts: &Vec<String>, indexed: &HashSet<u64>) -> (r: Vec<String>)
    ensures
        views(r@) == unseen(views(texts@), indexed@),
{
    let mut out: Vec<String> = Vec::new();
    let ghost all = views(texts@);
    let ghost keep = |t: Seq<char>| !indexed@.contains(hash_of(t));
    let mut i: usize = 0;
    proof {
        reveal(Seq::filter);
    }
    assert(views(out@) == all.take(0).filter(keep));
    while i < texts.len()
        invariant
            i <= texts.len(),
            all == views(texts@),
            keep == (|t: Seq<char>| !indexed@.contains(hash_of(t))),
            views(out@) == all.take(i as int).filter(keep),
        decreases texts.len() - i,
    {
        proof {
            reveal(Seq::filter);
        }
        assert(all.take(i + 1).drop_last() == all.take(i as int));
        if !indexed.contains(&doc_hash(texts[i].as_str())) {
            let ghost before = views(out@);
            out.push(texts[i].clone());
            assert(views(out@) == before.push(all[i as int]));
        }
        i += 1;
    }
    assert(all.take(i as int) == all);
    out
}

proof fn lemma_hash_among(docs: Seq<Seq<char>>, h: u64)
    ensures
        hashes_of(docs).contains(h) <==> exists|i: int|
            0 <= i < docs.len() && hash_of(#[trigger] docs[i]) == h,
{
    let hashes = docs.map_values(|t: Seq<char>| hash_of(t));
    if hashes.contains(h) {
        let i = choose|i: int| 0 <= i < hashes.len() && hashes[i] == h;
        assert(hash_of(docs[i]) == h);
    }
    if exists|i: int| 0 <= i < docs.len() && hash_of(#[trigger] docs[i]) == h {
        let i = choose|i: int| 0 <= i < docs.len() && hash_of(#[trigger] docs[i]) == h;
        assert(hashes[i] == h);
    }
}

/// Every row with a text has its document.
pub proof fn every_text_has_its_document(texts: Seq<Option<Seq<char>>>, r: int)
    requires
        0 <= r < texts.len(),
        texts[r] is Some,
    ensures
        exists|i: int|
            0 <= i < distinct_documents(texts).len() && hash_of(
                #[trigger] distinct_documents(texts)[i],
            ) == hash_of(texts[r]->0),
    decreases texts.len(),
{
    let fewer = texts.drop_last();
    let before = distinct_documents(fewer);
    let docs = distinct_documents(texts);
    let h = hash_of(texts[r]->0);
    lemma_hash_among(before, h);
    if r < texts.len() - 1 {
        every_text_has_its_document(fewer, r);
        let i = choose|i: int| 0 <= i < before.len() && hash_of(#[trigger] before[i]) == h;
        assert(docs[i] == before[i]);
    } else if hashes_of(before).contains(h) {
        let i = choose|i: int| 0 <= i < before.len() && hash_of(#[trigger] before[i]) == h;
        assert(docs[i] == before[i]);
    } else {
        assert(docs[before.len() as int] == texts[r]->0);
    }
}

/// Every document is the text of a row, the first that has its identity, and comes
/// before the documents of all rows that follow.
pub proof fn every_document_is_the_text_of_its_first_row(texts: Seq<Option<Seq<char>>>, i: int) -> (r:
    int)
    requires
        0 <= i < distinct_documents(texts).len(),
    ensures
        0 <= r < texts.len(),
        texts[r] == Some(distinct_documents(texts)[i]),
        forall|q: int|
            0 <= q < r && (#[trigger] texts[q]) is Some ==> hash_of(texts[q]->0) != hash_of(
                distinct_documents(texts)[i],
            ),
        distinct_documents(texts.take(r)) == distinct_documents(texts).take(i),
    decreases texts.len(),
{
    let fewer = texts.drop_last();
    let before = distinct_documents(fewer);
    let docs = distinct_documents(texts);
    if i < before.len() {
        let r = every_document_is_the_text_of_its_first_row(fewer, i);
        assert(docs[i] == before[i]);
        assert forall|q: int| 0 <= q < r && (#[trigger] texts[q]) is Some implies hash_of(
            texts[q]->0,
        ) != hash_of(docs[i]) by {
            assert(fewer[q] is Some);
        }
        assert(fewer.take(r) =~= texts.take(r));
        assert(before.take(i) =~= docs.take(i));
        r
    } else {
        let r = texts.len() - 1;
        lemma_hash_among(before, hash_of(docs[i]));
        assert forall|q: int| 0 <= q < r && (#[trigger] texts[q]) is Some implies hash_of(
            texts[q]->0,
        ) != hash_of(docs[i]) by {
            assert(fewer[q] == texts[q]);
            every_text_has_its_document(fewer, q);
        }
        assert(texts.take(r) =~= fewer);
        assert(docs.take(i) =~= before);
        r
    }
}

/// One changed byte changes the identity of a document, wherever it stands: texts
/// that differ in it alone are never taken for each other.
pub proof fn a_changed_byte_changes_the_identity(
    s: Seq<char>,
    t: Seq<char>,
    before: Seq<u8>,
    x: u8,
    y: u8,
    after: Seq<u8>,
)
    requires
        vstd::utf8::encode_utf8(s) == before.push(x) + after,
        vstd::utf8::encode_utf8(t) == before.push(y) + after,
        x != y,
    ensures
        hash_of(s) != hash_of(t),
{
    let h: u64 = 0xcbf2_9ce4_8422_2325;
    lemma_hash_goes_on(h, before.push(x), after);
    lemma_hash_goes_on(h, before.push(y), after);
    assert(before.push(x).drop_last() =~= before);
    assert(before.push(y).drop_last() =~= before);
    let m = fnv1a(h, before);
    let (a, b) = (x as u64, y as u64);
    assert(a != b ==> m ^ a != m ^ b) by (bit_vector);
    lemma_multiplied_apart(m ^ a, m ^ b);
    lemma_states_stay_apart(fnv1a(h, before.push(x)), fnv1a(h, before.push(y)), after);
}

proof fn lemma_hash_goes_on(h: u64, a: Seq<u8>, b: Seq<u8>)
    ensures
        fnv1a(h, a + b) == fnv1a(fnv1a(h, a), b),
    decreases b.len(),
{
    if b.len() == 0 {
        assert(a + b =~= a);
    } else {
        assert((a + b).drop_last() =~= a + b.drop_last());
        lemma_hash_goes_on(h, a, b.drop_last());
    }
}

proof fn lemma_states_stay_apart(g: u64, h: u64, bytes: Seq<u8>)
    requires
        g != h,
    ensures
        fnv1a(g, bytes) != fnv1a(h, bytes),
    decreases bytes.len(),
{
    if bytes.len() > 0 {
        lemma_states_stay_apart(g, h, bytes.drop_last());
        let (m, n, b) = (
            fnv1a(g, bytes.drop_last()),
            fnv1a(h, bytes.drop_last()),
            bytes.last() as u64,
        );
        assert(m != n ==> m ^ b != n ^ b) by (bit_vector);
        lemma_multiplied_apart(m ^ b, n ^ b);
    }
}

proof fn lemma_multiplied_apart(a: u64, b: u64)
    requires
        a != b,
    ensures
        a.wrapping_mul(0x0000_0100_0000_01b3) != b.wrapping_mul(0x0000_0100_0000_01b3),
{
    lemma_multiplied_back(a);
    lemma_multiplied_back(b);
}

proof fn lemma_multiplied_back(a: u64)
    ensures
        (a.wrapping_mul(0x0000_0100_0000_01b3) * 0xce96_5057_aff6_957bint) % 0x1_0000_0000_0000_0000
            == a,
{
    let m = 0x1_0000_0000_0000_0000int;
    let p = 0x0000_0100_0000_01b3int;
    let q = 0xce96_5057_aff6_957bint;
    assert(p * q == 887285111055 * m + 1);
    assert(a.wrapping_mul(0x0000_0100_0000_01b3) == (a * p) % m);
    vstd::arithmetic::div_mod::lemma_mul_mod_noop_left(a * p, q, m);
    assert(a * p * q == a as int + (a * 887285111055int) * m) by (nonlinear_arith)
        requires
            p * q == 887285111055 * m + 1,
    ;
    vstd::arithmetic::div_mod::lemma_mod_multiples_vanish(a * 887285111055int, a as int, m);
    assert(m * (a * 887285111055int) == (a * 887285111055int) * m) by (nonlinear_arith);
    vstd::arithmetic::div_mod::lemma_small_mod(a as nat, m as nat);
}

}
