//! What the chunk store records about itself, what goes into it, and what a
//! search of it keeps.
//!
//! The vectors themselves live in a columnar dataset. An index names the model
//! that its vectors came from, their dimension and how its documents were cut
//! up, and is opened only for a session that embeds with the same model.

use vstd::prelude::*;

use crate::error::SemcastError;
use crate::index::chunk::{chunk_text, chunks_of, ChunkConfig};
use crate::index::{doc_hash, hash_of, ChunkHit};
use crate::number::Single;
use crate::text::{
    concat3, decimal, decimal_of, decimal_reads_back, parse_u64, parsed_number, same, views,
};

verus! {

pub const META_EMBED_MODEL: &'static str = "semcast.embed_model";

pub const META_EMBED_DIM: &'static str = "semcast.embed_dim";

pub const META_CHUNK_MAX_TOKENS: &'static str = "semcast.chunk_max_tokens";

pub const META_CHUNK_OVERLAP_TOKENS: &'static str = "semcast.chunk_overlap_tokens";

/// Chunk texts per embedding call where a provider prefers no other number, so
/// that huge corpora do not build one giant request.
pub const EMBED_BATCH: usize = 64;

/// Embedded once at creation, to learn the dimension of the vectors before any
/// document arrives.
pub const DIM_PROBE: &'static str = "semcast embedding dimension probe";

/// Names and values, as a dataset records them.
pub open spec fn pair_views(meta: Seq<(String, String)>) -> Seq<(Seq<char>, Seq<char>)> {
    meta.map_values(|p: (String, String)| (p.0@, p.1@))
}

/// The value that some metadata has for a key.
pub open spec fn meta_value(meta: Seq<(Seq<char>, Seq<char>)>, key: Seq<char>) -> Option<Seq<char>>
    decreases meta.len(),
{
    if meta.len() == 0 {
        None
    } else {
        match meta_value(meta.drop_last(), key) {
            Some(v) => Some(v),
            None => if meta.last().0 == key {
                Some(meta.last().1)
            } else {
                None
            },
        }
    }
}

/// What an index records about its vectors.
#[derive(Debug, Clone, Copy, PartialEq, Eq, Structural)]
pub struct IndexMeta {
    pub dim: usize,
    pub config: ChunkConfig,
}

/// The metadata that an index is created with.
pub open spec fn recorded(dim: nat, model: Seq<char>, config: ChunkConfig) -> Seq<
    (Seq<char>, Seq<char>),
> {
    seq![
        (META_EMBED_MODEL@, model),
        (META_EMBED_DIM@, decimal(dim)),
        (META_CHUNK_MAX_TOKENS@, decimal(config.max_tokens as nat)),
        (META_CHUNK_OVERLAP_TOKENS@, decimal(config.overlap_tokens as nat)),
    ]
}

/// The number that a metadata value stands for.
pub open spec fn meta_number(value: Option<Seq<char>>) -> Option<usize> {
    match value {
        Some(v) => match parsed_number(v) {
            Some(n) => if n <= usize::MAX {
                Some(n as usize)
            } else {
                None
            },
            None => None,
        },
        None => None,
    }
}

/// The message of metadata that holds no number where one should be.
pub open spec fn bad_meta(uri: Seq<char>, key: Seq<char>) -> Seq<char> {
    uri + " has missing or invalid "@ + key + " metadata"@
}

/// What opening an index finds, or the message of why it is refused.
pub open spec fn opened(
    uri: Seq<char>,
    meta: Seq<(Seq<char>, Seq<char>)>,
    model: Seq<char>,
) -> Result<IndexMeta, Seq<char>> {
    let dim = meta_number(meta_value(meta, META_EMBED_DIM@));
    let max = meta_number(meta_value(meta, META_CHUNK_MAX_TOKENS@));
    let overlap = meta_number(meta_value(meta, META_CHUNK_OVERLAP_TOKENS@));
    match meta_value(meta, META_EMBED_MODEL@) {
        None => Err(uri + " is not a semcast index (no embed-model metadata)"@),
        Some(built) => if built != model {
            Err(
                "index at "@ + uri + " was built with embed model "@ + built
                    + ", but the session embeds with "@ + model,
            )
        } else if dim is None {
            Err(bad_meta(uri, META_EMBED_DIM@))
        } else if max is None {
            Err(bad_meta(uri, META_CHUNK_MAX_TOKENS@))
        } else if overlap is None {
            Err(bad_meta(uri, META_CHUNK_OVERLAP_TOKENS@))
        } else {
            Ok(
                IndexMeta {
                    dim: dim->0,
                    config: ChunkConfig { max_tokens: max->0, overlap_tokens: overlap->0 },
                },
            )
        },
    }
}

/// A failure of the index with a message.
pub open spec fn index_error(r: SemcastError, message: Seq<char>) -> bool {
    r matches SemcastError::Index(m) && m@ == message
}

/// The metadata that an index is created with.
pub fn index_metadata(dim: usize, embed_model: &str, config: &ChunkConfig) -> (r: Vec<
    (String, String),
>)
    ensures
        pair_views(r@) == recorded(dim as nat, embed_model@, *config),
{
    let mut meta: Vec<(String, String)> = Vec::new();
    meta.push((META_EMBED_MODEL.to_owned(), embed_model.to_owned()));
    meta.push((META_EMBED_DIM.to_owned(), decimal_of(dim as u64)));
    meta.push((META_CHUNK_MAX_TOKENS.to_owned(), decimal_of(config.max_tokens as u64)));
    meta.push((META_CHUNK_OVERLAP_TOKENS.to_owned(), decimal_of(config.overlap_tokens as u64)));
    assert(pair_views(meta@) =~= recorded(dim as nat, embed_model@, *config));
    meta
}

proof fn lemma_meta_prefix(meta: Seq<(Seq<char>, Seq<char>)>, n: int, key: Seq<char>)
    requires
        0 <= n <= meta.len(),
        meta_value(meta.take(n), key) is Some,
    ensures
        meta_value(meta, key) == meta_value(meta.take(n), key),
    decreases meta.len(),
{
    if n == meta.len() {
        assert(meta.take(n) == meta);
    } else {
        assert(meta.drop_last().take(n) == meta.take(n));
        lemma_meta_prefix(meta.drop_last(), n, key);
    }
}

/// The view of an optional reference to a text.
pub open spec fn opt_ref(s: Option<&String>) -> Option<Seq<char>> {
    match s {
        Some(s) => Some(s@),
        None => None,
    }
}

/// The value that some metadata has for a key.
fn find_meta<'a>(meta: &'a Vec<(String, String)>, key: &str) -> (r: Option<&'a String>)
    ensures
        opt_ref(r) == meta_value(pair_views(meta@), key@),
{
    let ghost all = pair_views(meta@);
    let mut i: usize = 0;
    while i < meta.len()
        invariant
            i <= meta.len(),
            all == pair_views(meta@),
            meta_value(all.take(i as int), key@) is None,
        decreases meta.len() - i,
    {
        assert(all.take(i + 1).drop_last() == all.take(i as int));
        assert(all.take(i + 1).last() == (meta@[i as int].0@, meta@[i as int].1@));
        if same(meta[i].0.as_str(), key) {
            proof {
                lemma_meta_prefix(all, i + 1, key@);
            }
            return Some(&meta[i].1);
        }
        i += 1;
    }
    assert(all.take(i as int) == all);
    None
}

/// Reads a number out of an index's metadata.
pub fn parse_meta(value: Option<&String>, uri: &str, key: &str) -> (r: Result<usize, SemcastError>)
    ensures
        match meta_number(opt_ref(value)) {
            Some(n) => r == Ok::<usize, SemcastError>(n),
            None => r is Err && index_error(r->Err_0, bad_meta(uri@, key@)),
        },
{
    if let Some(value) = value {
        if let Some(n) = parse_u64(value.as_str()) {
            if n <= usize::MAX as u64 {
                return Ok(n as usize);
            }
        }
    }
    let mut message: String = concat3(uri, " has missing or invalid ", key);
    message.append(" metadata");
    Err(SemcastError::Index(message))
}

/// Reads what an existing index records, checking that its vectors came from
/// the model that the session embeds with.
pub fn open_metadata(uri: &str, meta: &Vec<(String, String)>, embed_model: &str) -> (r: Result<
    IndexMeta,
    SemcastError,
>)
    ensures
        match opened(uri@, pair_views(meta@), embed_model@) {
            Ok(found) => r == Ok::<IndexMeta, SemcastError>(found),
            Err(message) => r is Err && index_error(r->Err_0, message),
        },
{
    match find_meta(meta, META_EMBED_MODEL) {
        None => Err(
            SemcastError::Index(
                uri.to_owned().concat(" is not a semcast index (no embed-model metadata)"),
            ),
        ),
        Some(built) => {
            if !same(built.as_str(), embed_model) {
                let mut message: String = concat3("index at ", uri, " was built with embed model ");
                message.append(built.as_str());
                message.append(", but the session embeds with ");
                message.append(embed_model);
                return Err(SemcastError::Index(message));
            }
            let dim: usize = match parse_meta(find_meta(meta, META_EMBED_DIM), uri, META_EMBED_DIM) {
                Ok(n) => n,
                Err(err) => {
                    return Err(err);
                },
            };
            let max_tokens: usize = match parse_meta(
                find_meta(meta, META_CHUNK_MAX_TOKENS),
                uri,
                META_CHUNK_MAX_TOKENS,
            ) {
                Ok(n) => n,
                Err(err) => {
                    return Err(err);
                },
            };
            match parse_meta(
                find_meta(meta, META_CHUNK_OVERLAP_TOKENS),
                uri,
                META_CHUNK_OVERLAP_TOKENS,
            ) {
                Ok(overlap_tokens) => Ok(
                    IndexMeta { dim, config: ChunkConfig { max_tokens, overlap_tokens } },
                ),
                Err(err) => Err(err),
            }
        },
    }
}

/// An embedding, by the bits of its single-precision components.
pub type Vector = Vec<u32>;

/// The dimension of the vectors, from the answer to [`DIM_PROBE`].
pub fn probe_dimension(probe: &Vec<Vector>, embed_model: &str) -> (r: Result<usize, SemcastError>)
    ensures
        if probe@.len() > 0 && probe@[0]@.len() > 0 {
            r == Ok::<usize, SemcastError>(probe@[0].len())
        } else {
            r is Err && index_error(
                r->Err_0,
                "embedder "@ + embed_model@ + " returned an empty embedding"@,
            )
        },
{
    if probe.len() > 0 && probe[0].len() > 0 {
        Ok(probe[0].len())
    } else {
        Err(
            SemcastError::Index(
                concat3("embedder ", embed_model, " returned an empty embedding"),
            ),
        )
    }
}

/// One chunk of a document, as it is stored.
#[derive(Debug)]
pub struct StoredChunk {
    pub doc_hash: u64,
    pub chunk_index: u32,
    pub text: String,
}

/// What a [`StoredChunk`] stands for.
pub struct StoredView {
    pub doc_hash: u64,
    pub chunk_index: u32,
    pub text: Seq<char>,
}

impl View for StoredChunk {
    type V = StoredView;

    open spec fn view(&self) -> StoredView {
        StoredView {
            doc_hash: self.doc_hash,
            chunk_index: self.chunk_index,
            text: self.text@,
        }
    }
}

pub open spec fn stored_views(chunks: Seq<StoredChunk>) -> Seq<StoredView> {
    chunks.map_values(|c: StoredChunk| c@)
}

/// The chunks of one document, numbered in their order.
pub open spec fn document_chunks(text: Seq<char>, config: ChunkConfig) -> Seq<StoredView> {
    Seq::new(
        chunks_of(text, config).len(),
        |i: int|
            StoredView {
                doc_hash: hash_of(text),
                chunk_index: i as u32,
                text: chunks_of(text, config)[i],
            },
    )
}

/// The chunks of some documents, one after another.
pub open spec fn all_chunks(texts: Seq<Seq<char>>, config: ChunkConfig) -> Seq<StoredView>
    decreases texts.len(),
{
    if texts.len() == 0 {
        Seq::empty()
    } else {
        all_chunks(texts.drop_last(), config) + document_chunks(texts.last(), config)
    }
}

/// How many of some documents have a chunk.
pub open spec fn chunked_documents(texts: Seq<Seq<char>>, config: ChunkConfig) -> nat
    decreases texts.len(),
{
    if texts.len() == 0 {
        0
    } else {
        chunked_documents(texts.drop_last(), config) + if chunks_of(texts.last(), config).len()
            == 0 {
            0nat
        } else {
            1nat
        }
    }
}

proof fn lemma_chunked_bound(texts: Seq<Seq<char>>, config: ChunkConfig)
    ensures
        chunked_documents(texts, config) <= texts.len(),
    decreases texts.len(),
{
    if texts.len() > 0 {
        lemma_chunked_bound(texts.drop_last(), config);
    }
}

/// Cuts documents into the chunks to store. With them comes how many documents
/// there are chunks of: a text of white space alone has none.
pub fn plan_documents(texts: &Vec<String>, config: &ChunkConfig) -> (r: (Vec<StoredChunk>, usize))
    requires
        config.fits(),
    ensures
        stored_views(r.0@) == all_chunks(views(texts@), *config),
        r.1 == chunked_documents(views(texts@), *config),
{
    let ghost all = views(texts@);
    let mut chunks: Vec<StoredChunk> = Vec::new();
    let mut docs: usize = 0;
    let mut t: usize = 0;
    assert(stored_views(chunks@) =~= Seq::<StoredView>::empty());
    while t < texts.len()
        invariant
            t <= texts.len(),
            config.fits(),
            all == views(texts@),
            stored_views(chunks@) == all_chunks(all.take(t as int), *config),
            docs == chunked_documents(all.take(t as int), *config),
        decreases texts.len() - t,
    {
        assert(all.take(t + 1).drop_last() == all.take(t as int));
        assert(all.take(t + 1).last() == texts@[t as int]@);
        let text = texts[t].as_str();
        let hash: u64 = doc_hash(text);
        let parts = chunk_text(text, config);
        let ghost own = document_chunks(text@, *config);
        let ghost before = stored_views(chunks@);
        proof {
            lemma_chunked_bound(all.take(t as int), *config);
        }
        if parts.len() > 0 {
            docs += 1;
        }
        let mut i: usize = 0;
        assert(before + own.take(0) =~= before);
        while i < parts.len()
            invariant
                i <= parts.len(),
                views(parts@) == chunks_of(text@, *config),
                hash == hash_of(text@),
                own == document_chunks(text@, *config),
                stored_views(chunks@) == before + own.take(i as int),
            decreases parts.len() - i,
        {
            let ghost so_far = stored_views(chunks@);
            let chunk = StoredChunk {
                doc_hash: hash,
                chunk_index: i as u32,
                text: parts[i].clone(),
            };
            chunks.push(chunk);
            assert(views(parts@)[i as int] == parts@[i as int]@);
            assert(own[i as int] == chunk@);
            assert(stored_views(chunks@) =~= so_far.push(chunk@));
            assert(own.take(i + 1) =~= own.take(i as int).push(chunk@));
            assert(so_far.push(chunk@) =~= before + own.take(i + 1));
            i += 1;
        }
        assert(own.take(i as int) =~= own);
        t += 1;
    }
    assert(all.take(t as int) == all);
    (chunks, docs)
}

/// Where the batch of at most `size` chunks that starts at `from` ends.
pub open spec fn batch_end(from: nat, count: nat, size: nat) -> nat {
    if count - from <= size {
        count
    } else {
        from + size
    }
}

/// The texts of some chunks.
pub open spec fn chunk_texts(chunks: Seq<StoredChunk>) -> Seq<Seq<char>> {
    chunks.map_values(|c: StoredChunk| c.text@)
}

/// The texts of the next embedding call, as many as the provider prefers per
/// request.
pub fn embed_batch(chunks: &Vec<StoredChunk>, from: usize, size: usize) -> (r: Vec<String>)
    requires
        from <= chunks.len(),
        size > 0,
    ensures
        views(r@) == chunk_texts(chunks@).subrange(
            from as int,
            batch_end(from as nat, chunks@.len(), size as nat) as int,
        ),
{
    let n: usize = chunks.len();
    let end: usize = if n - from <= size {
        n
    } else {
        from + size
    };
    let ghost all = chunk_texts(chunks@);
    let mut texts: Vec<String> = Vec::new();
    let mut i: usize = from;
    assert(views(texts@) =~= all.subrange(from as int, from as int));
    while i < end
        invariant
            from <= i <= end <= chunks.len(),
            all == chunk_texts(chunks@),
            views(texts@) == all.subrange(from as int, i as int),
        decreases end - i,
    {
        let ghost before = views(texts@);
        texts.push(chunks[i].text.clone());
        assert(views(texts@) =~= before.push(all[i as int]));
        assert(before.push(all[i as int]) =~= all.subrange(from as int, i + 1));
        i += 1;
    }
    texts
}

/// What is embedded from a position on, call after call.
pub open spec fn embedded_from(texts: Seq<Seq<char>>, from: nat, size: nat) -> Seq<Seq<char>>
    decreases texts.len() - from,
{
    if from >= texts.len() || size == 0 {
        Seq::empty()
    } else {
        let end = batch_end(from, texts.len(), size);
        texts.subrange(from as int, end as int) + embedded_from(texts, end, size)
    }
}

/// Whatever size a provider prefers, every chunk is embedded once, in order.
pub proof fn every_chunk_is_embedded_once(texts: Seq<Seq<char>>, from: nat, size: nat)
    requires
        from <= texts.len(),
        size > 0,
    ensures
        embedded_from(texts, from, size) == texts.skip(from as int),
    decreases texts.len() - from,
{
    if from < texts.len() {
        let end = batch_end(from, texts.len(), size);
        every_chunk_is_embedded_once(texts, end, size);
        assert(texts.subrange(from as int, end as int) + texts.skip(end as int) =~= texts.skip(
            from as int,
        ));
    } else {
        assert(texts.skip(from as int) =~= Seq::<Seq<char>>::empty());
    }
}

/// The message of a vector that has another dimension than the index.
pub open spec fn wrong_dimension(model: Seq<char>, got: nat, dim: nat) -> Seq<char> {
    "embedder "@ + model + " returned dimension "@ + decimal(got) + ", index stores "@ + decimal(
        dim,
    )
}

/// Checks the vectors of an embedding call; the first that does not fit the
/// index is the error.
pub fn check_vectors(embedded: &Vec<Vector>, dim: usize, embed_model: &str) -> (r: Result<
    (),
    SemcastError,
>)
    ensures
        match r {
            Ok(_) => forall|i: int| 0 <= i < embedded@.len() ==> (#[trigger] embedded@[i])@.len() == dim,
            Err(err) => exists|i: int|
                0 <= i < embedded@.len() && (#[trigger] embedded@[i])@.len() != dim && (forall|j: int|
                    0 <= j < i ==> (#[trigger] embedded@[j])@.len() == dim) && index_error(
                    err,
                    wrong_dimension(embed_model@, embedded@[i]@.len(), dim as nat),
                ),
        },
{
    let mut i: usize = 0;
    while i < embedded.len()
        invariant
            i <= embedded.len(),
            forall|j: int| 0 <= j < i ==> (#[trigger] embedded@[j])@.len() == dim,
        decreases embedded.len() - i,
    {
        if embedded[i].len() != dim {
            let mut message: String = concat3("embedder ", embed_model, " returned dimension ");
            let got = decimal_of(embedded[i].len() as u64);
            message.append(got.as_str());
            message.append(", index stores ");
            let want = decimal_of(dim as u64);
            message.append(want.as_str());
            assert(embedded@[i as int]@.len() != dim);
            return Err(SemcastError::Index(message));
        }
        i += 1;
    }
    Ok(())
}

/// The vector of a query, from the answer to embedding it: the last one, where
/// it has the dimension of the index.
pub fn query_vector(embedded: Vec<Vector>, dim: usize, embed_model: &str) -> (r: Result<
    Vector,
    SemcastError,
>)
    ensures
        if embedded@.len() > 0 && embedded@.last()@.len() == dim {
            r == Ok::<Vector, SemcastError>(embedded@.last())
        } else {
            r is Err && index_error(
                r->Err_0,
                "embedder "@ + embed_model@ + " did not return a "@ + decimal(dim as nat)
                    + "-dimensional query vector"@,
            )
        },
{
    let mut embedded = embedded;
    if let Some(vector) = embedded.pop() {
        if vector.len() == dim {
            return Ok(vector);
        }
    }
    let mut message: String = concat3("embedder ", embed_model, " did not return a ");
    let number = decimal_of(dim as u64);
    message.append(number.as_str());
    message.append("-dimensional query vector");
    Err(SemcastError::Index(message))
}

/// The hits of a scan whose score reaches a floor, in their order.
pub fn keep_hits(scanned: Vec<ChunkHit>, floor: Single) -> (r: Vec<ChunkHit>)
    ensures
        r@ == scanned@.filter(|h: ChunkHit| floor.at_most(h.score)),
{
    let ghost given = scanned@;
    let ghost keep = |h: ChunkHit| floor.at_most(h.score);
    let n: usize = scanned.len();
    let mut rest = scanned;
    let mut turned: Vec<ChunkHit> = Vec::new();
    while rest.len() > 0
        invariant
            n == given.len(),
            rest@.len() <= n,
            rest@ == given.take(rest@.len() as int),
            turned@.len() == n - rest@.len(),
            forall|k: int| 0 <= k < turned@.len() ==> #[trigger] turned@[k] == given[n - 1 - k],
        decreases rest.len(),
    {
        if let Some(hit) = rest.pop() {
            turned.push(hit);
        }
    }
    let mut kept: Vec<ChunkHit> = Vec::new();
    let ghost mut done: int = 0;
    proof {
        reveal(Seq::filter);
        assert(kept@ =~= given.take(0).filter(keep));
    }
    while turned.len() > 0
        invariant
            n == given.len(),
            0 <= done <= n,
            keep == (|h: ChunkHit| floor.at_most(h.score)),
            turned@.len() == n - done,
            forall|k: int| 0 <= k < turned@.len() ==> #[trigger] turned@[k] == given[n - 1 - k],
            kept@ == given.take(done).filter(keep),
        decreases turned.len(),
    {
        if let Some(hit) = turned.pop() {
            proof {
                reveal(Seq::filter);
                assert(hit == given[done]);
                assert(given.take(done + 1).drop_last() == given.take(done));
                assert(given.take(done + 1).last() == hit);
                done = done + 1;
            }
            if floor.le(hit.score) {
                kept.push(hit);
            }
        }
    }
    assert(given.take(done) == given);
    kept
}

/// An index opens with what it was created with, for a session that embeds with
/// the same model.
pub proof fn an_index_opens_as_it_was_created(
    uri: Seq<char>,
    model: Seq<char>,
    dim: usize,
    config: ChunkConfig,
)
    ensures
        opened(uri, recorded(dim as nat, model, config), model) == Ok::<IndexMeta, Seq<char>>(
            IndexMeta { dim, config },
        ),
{
    let meta = recorded(dim as nat, model, config);
    reveal_strlit("semcast.embed_model");
    reveal_strlit("semcast.embed_dim");
    reveal_strlit("semcast.chunk_max_tokens");
    reveal_strlit("semcast.chunk_overlap_tokens");
    assert(META_EMBED_MODEL@.len() == 19);
    assert(META_EMBED_DIM@.len() == 17);
    assert(META_CHUNK_MAX_TOKENS@.len() == 24);
    assert(META_CHUNK_OVERLAP_TOKENS@.len() == 28);
    assert(meta.drop_last() =~= seq![meta[0], meta[1], meta[2]]);
    assert(meta.drop_last().drop_last() =~= seq![meta[0], meta[1]]);
    assert(meta.drop_last().drop_last().drop_last() =~= seq![meta[0]]);
    assert(meta.drop_last().drop_last().drop_last().drop_last() =~= Seq::empty());
    reveal_with_fuel(meta_value, 5);
    assert(meta_value(meta, META_EMBED_MODEL@) == Some(model));
    assert(meta_value(meta, META_EMBED_DIM@) == Some(decimal(dim as nat)));
    assert(meta_value(meta, META_CHUNK_MAX_TOKENS@) == Some(decimal(config.max_tokens as nat)));
    assert(meta_value(meta, META_CHUNK_OVERLAP_TOKENS@) == Some(
        decimal(config.overlap_tokens as nat),
    ));
    decimal_reads_back(dim as nat);
    decimal_reads_back(config.max_tokens as nat);
    decimal_reads_back(config.overlap_tokens as nat);
}

/// An index built with one model is refused to a session that embeds with
/// another.
pub proof fn an_index_of_another_model_is_refused(
    uri: Seq<char>,
    built: Seq<char>,
    model: Seq<char>,
    dim: usize,
    config: ChunkConfig,
)
    requires
        built != model,
    ensures
        opened(uri, recorded(dim as nat, built, config), model) is Err,
{
    let meta = recorded(dim as nat, built, config);
    assert(meta.drop_last() =~= seq![meta[0], meta[1], meta[2]]);
    assert(meta.drop_last().drop_last() =~= seq![meta[0], meta[1]]);
    assert(meta.drop_last().drop_last().drop_last() =~= seq![meta[0]]);
    assert(meta.drop_last().drop_last().drop_last().drop_last() =~= Seq::empty());
    reveal_with_fuel(meta_value, 5);
}

/// Of values recorded under one name, the first counts, and one that was recorded
/// is found.
pub proof fn the_first_recorded_value_counts(meta: Seq<(Seq<char>, Seq<char>)>, key: Seq<char>, i: int)
    requires
        0 <= i < meta.len(),
        meta[i].0 == key,
        forall|h: int| 0 <= h < i ==> (#[trigger] meta[h]).0 != key,
    ensures
        meta_value(meta, key) == Some(meta[i].1),
    decreases meta.len(),
{
    let less = meta.drop_last();
    if i < meta.len() - 1 {
        assert forall|h: int| 0 <= h < i implies (#[trigger] less[h]).0 != key by {
            assert(less[h] == meta[h]);
        }
        the_first_recorded_value_counts(less, key, i);
    } else {
        assert forall|h: int| 0 <= h < less.len() implies (#[trigger] less[h]).0 != key by {
            assert(less[h] == meta[h]);
        }
        an_unrecorded_value_is_none(less, key);
    }
}

/// A name that nothing is recorded under has no value.
pub proof fn an_unrecorded_value_is_none(meta: Seq<(Seq<char>, Seq<char>)>, key: Seq<char>)
    requires
        forall|h: int| 0 <= h < meta.len() ==> (#[trigger] meta[h]).0 != key,
    ensures
        meta_value(meta, key) is None,
    decreases meta.len(),
{
    if meta.len() > 0 {
        let less = meta.drop_last();
        assert forall|h: int| 0 <= h < less.len() implies (#[trigger] less[h]).0 != key by {
            assert(less[h] == meta[h]);
        }
        an_unrecorded_value_is_none(less, key);
        assert(meta[meta.len() - 1].0 != key);
    }
}

/// What is stored is every chunk of every document, under the identity of its
/// document and its place in it, and nothing else; and the documents that have a
/// chunk are counted.
pub proof fn every_chunk_of_every_document_is_stored(
    texts: Seq<Seq<char>>,
    config: ChunkConfig,
    s: StoredView,
)
    ensures
        all_chunks(texts, config).contains(s) <==> exists|t: int, i: int|
            0 <= t < texts.len() && 0 <= i < chunks_of(texts[t], config).len() && s.doc_hash
                == hash_of(texts[t]) && s.chunk_index == i as u32 && s.text
                == #[trigger] chunks_of(texts[t], config)[i],
        chunked_documents(texts, config) == texts.filter(
            |t: Seq<char>| chunks_of(t, config).len() > 0,
        ).len(),
    decreases texts.len(),
{
    reveal(Seq::filter);
    let all = all_chunks(texts, config);
    if texts.len() > 0 {
        let fewer = texts.drop_last();
        let last = texts.len() - 1;
        let before = all_chunks(fewer, config);
        let own = document_chunks(texts.last(), config);
        every_chunk_of_every_document_is_stored(fewer, config, s);
        if all.contains(s) {
            let k = choose|k: int| 0 <= k < all.len() && all[k] == s;
            if k < before.len() {
                assert(before[k] == s);
                let (t, i) = choose|t: int, i: int|
                    0 <= t < fewer.len() && 0 <= i < chunks_of(fewer[t], config).len()
                        && s.doc_hash == hash_of(fewer[t]) && s.chunk_index == i as u32 && s.text
                        == #[trigger] chunks_of(fewer[t], config)[i];
                assert(s.text == chunks_of(texts[t], config)[i]);
            } else {
                let i = k - before.len();
                assert(own[i] == s);
                assert(s.text == chunks_of(texts[last], config)[i]);
            }
        }
        if exists|t: int, i: int|
            0 <= t < texts.len() && 0 <= i < chunks_of(texts[t], config).len() && s.doc_hash
                == hash_of(texts[t]) && s.chunk_index == i as u32 && s.text
                == #[trigger] chunks_of(texts[t], config)[i] {
            let (t, i) = choose|t: int, i: int|
                0 <= t < texts.len() && 0 <= i < chunks_of(texts[t], config).len() && s.doc_hash
                    == hash_of(texts[t]) && s.chunk_index == i as u32 && s.text
                    == #[trigger] chunks_of(texts[t], config)[i];
            if t < last {
                assert(s.text == chunks_of(fewer[t], config)[i]);
                let k = choose|k: int| 0 <= k < before.len() && before[k] == s;
                assert(all[k] == s);
            } else {
                assert(own[i] == s);
                assert(all[before.len() + i] == s);
            }
        }
    }
}

/// A call embeds at least one chunk, as long as there is one, and no more than the
/// provider prefers.
pub proof fn a_call_embeds_no_more_than_preferred(from: nat, count: nat, size: nat)
    requires
        from < count,
        size > 0,
    ensures
        from < batch_end(from, count, size) <= count,
        batch_end(from, count, size) - from <= size,
        batch_end(from, count, size) < count ==> batch_end(from, count, size) - from == size,
{
}

}
