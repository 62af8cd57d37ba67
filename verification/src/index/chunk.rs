//! Document chunking for the semantic index.

use vstd::prelude::*;

use crate::text::{join_range, joined, split_words, views, words};

verus! {

#[derive(Debug, Clone, Copy, PartialEq, Eq, Structural)]
pub struct ChunkConfig {
    /// Approximate tokens per slice.
    pub max_tokens: usize,
    /// Tokens shared between adjacent slices, so a match straddling a
    /// boundary is not lost.
    pub overlap_tokens: usize,
}

impl Default for ChunkConfig {
    fn default() -> (r: ChunkConfig)
        ensures
            r.max_tokens == 512,
            r.overlap_tokens == 64,
    {
        ChunkConfig { max_tokens: 512, overlap_tokens: 64 }
    }
}

impl ChunkConfig {
    /// Both token counts can be tripled within the machine's integers.
    pub open spec fn fits(self) -> bool {
        self.max_tokens * 3 <= usize::MAX && self.overlap_tokens * 3 <= usize::MAX
    }

    /// The window size in words: three words for four tokens, at least one.
    pub open spec fn window(self) -> nat {
        let w = (self.max_tokens * 3 / 4) as nat;
        if w < 1 {
            1
        } else {
            w
        }
    }

    /// The overlap in words, less than the window.
    pub open spec fn overlap(self) -> nat {
        let w = (self.overlap_tokens * 3 / 4) as nat;
        if w < self.window() {
            w
        } else {
            (self.window() - 1) as nat
        }
    }

    /// How many words lie between the starts of two adjacent windows.
    pub open spec fn stride(self) -> nat {
        (self.window() - self.overlap()) as nat
    }

    /// Window size in words, from the heuristic of about 0.75 words per token.
    pub fn words_per_chunk(&self) -> (r: usize)
        requires
            self.fits(),
        ensures
            r == self.window(),
    {
        let w: usize = self.max_tokens * 3 / 4;
        if w < 1 {
            1
        } else {
            w
        }
    }

    /// Overlap in words, clamped so every window advances.
    pub fn overlap_words(&self) -> (r: usize)
        requires
            self.fits(),
        ensures
            r == self.overlap(),
            r < self.window(),
    {
        let w: usize = self.overlap_tokens * 3 / 4;
        let window: usize = self.words_per_chunk();
        if w < window {
            w
        } else {
            window - 1
        }
    }
}

/// The chunks of a sequence of words: windows of `window` words, `stride` words
/// apart, until one reaches the end.
pub open spec fn windows(all: Seq<Seq<char>>, start: int, window: nat, stride: nat) -> Seq<
    Seq<char>,
>
    decreases all.len() - start,
{
    if start + window >= all.len() || !(0 < stride <= window) {
        seq![joined(all.subrange(start, all.len() as int), " "@)]
    } else {
        seq![joined(all.subrange(start, start + window), " "@)] + windows(
            all,
            start + stride,
            window,
            stride,
        )
    }
}

/// The chunks of a text.
pub open spec fn chunks_of(text: Seq<char>, config: ChunkConfig) -> Seq<Seq<char>> {
    if words(text).len() == 0 {
        Seq::empty()
    } else {
        windows(words(text), 0, config.window(), config.stride())
    }
}

/// Split `text` into embedding-sized slices: sliding word windows with
/// overlap, no tokenizer. Words are rejoined with single spaces, for chunks
/// feed embeddings and verify prompts, where original white space carries no
/// meaning. A text of white space alone yields no chunks.
pub fn chunk_text(text: &str, config: &ChunkConfig) -> (r: Vec<String>)
    requires
        config.fits(),
    ensures
        views(r@) == chunks_of(text@, *config),
{
    let list = split_words(text);
    let n: usize = list.len();
    let ghost all = words(text@);
    assert(all.len() == n);
    let mut chunks: Vec<String> = Vec::new();
    if n == 0 {
        assert(views(chunks@) == Seq::<Seq<char>>::empty());
        return chunks;
    }
    let window: usize = config.words_per_chunk();
    let stride: usize = window - config.overlap_words();
    let mut start: usize = 0;
    assert(views(chunks@) + windows(all, 0, window as nat, stride as nat) == windows(
        all,
        0,
        window as nat,
        stride as nat,
    ));
    loop
        invariant
            start < n == list.len(),
            all == views(list@),
            all == words(text@),
            window == config.window(),
            stride == config.stride(),
            0 < stride <= window,
            chunks_of(text@, *config) == views(chunks@) + windows(
                all,
                start as int,
                window as nat,
                stride as nat,
            ),
        decreases n - start,
    {
        let end: usize = if n - start <= window {
            n
        } else {
            start + window
        };
        let chunk = join_range(&list, start, end, " ");
        let ghost before = views(chunks@);
        chunks.push(chunk);
        assert(views(chunks@) == before.push(chunk@));
        if end == n {
            assert(windows(all, start as int, window as nat, stride as nat) == seq![chunk@]);
            assert(before + seq![chunk@] == views(chunks@));
            return chunks;
        }
        assert(before + (seq![chunk@] + windows(
            all,
            start + stride,
            window as nat,
            stride as nat,
        )) == views(chunks@) + windows(all, start + stride, window as nat, stride as nat));
        start = start + stride;
    }
}

/// The words of the chunk `i`: those from `i * stride` on, a window of them at
/// most.
pub open spec fn chunk_words(all: Seq<Seq<char>>, config: ChunkConfig, i: int) -> Seq<Seq<char>> {
    let from = i * config.stride();
    let to = from + config.window();
    all.subrange(
        from,
        if to < all.len() {
            to
        } else {
            all.len() as int
        },
    )
}

proof fn lemma_windows(all: Seq<Seq<char>>, config: ChunkConfig, first: int)
    requires
        0 <= first,
        first * config.stride() < all.len(),
    ensures
        ({
            let found = windows(all, first * config.stride(), config.window(), config.stride());
            &&& found.len() > 0
            &&& forall|i: int|
                0 <= i < found.len() ==> #[trigger] found[i] == joined(
                    chunk_words(all, config, first + i),
                    " "@,
                ) && (first + i) * config.stride() < all.len()
            &&& (first + found.len() - 1) * config.stride() + config.window() >= all.len()
        }),
    decreases all.len() - first * config.stride(),
{
    let stride = config.stride();
    let start = first * stride;
    let found = windows(all, start, config.window(), stride);
    if start + config.window() < all.len() {
        assert((first + 1) * stride == start + stride) by (nonlinear_arith)
            requires
                start == first * stride,
        ;
        lemma_windows(all, config, first + 1);
        let rest = windows(all, start + stride, config.window(), stride);
        assert forall|i: int| 0 <= i < found.len() implies #[trigger] found[i] == joined(
            chunk_words(all, config, first + i),
            " "@,
        ) && (first + i) * stride < all.len() by {
            if i > 0 {
                assert(found[i] == rest[i - 1]);
            }
        }
    }
}

/// The chunks of a text are its windows: chunk `i` holds the words from
/// `i * stride` on, at most a window of them, joined by single spaces; and the
/// last one reaches the end of the text.
pub proof fn chunks_are_windows(text: Seq<char>, config: ChunkConfig)
    requires
        words(text).len() > 0,
    ensures
        chunks_of(text, config).len() > 0,
        forall|i: int|
            0 <= i < chunks_of(text, config).len() ==> #[trigger] chunks_of(text, config)[i]
                == joined(chunk_words(words(text), config, i), " "@),
        (chunks_of(text, config).len() - 1) * config.stride() + config.window() >= words(
            text,
        ).len(),
{
    assert(0 * config.stride() == 0);
    lemma_windows(words(text), config, 0);
}

/// Nothing is lost between two slices: every word of a text lies in the window
/// of some chunk.
pub proof fn every_word_is_in_a_chunk(text: Seq<char>, config: ChunkConfig, word: int) -> (i: int)
    requires
        0 <= word < words(text).len(),
    ensures
        0 <= i < chunks_of(text, config).len(),
        i * config.stride() <= word < i * config.stride() + config.window(),
{
    chunks_are_windows(text, config);
    let stride = config.stride() as int;
    let last = chunks_of(text, config).len() - 1;
    if word >= last * stride {
        last
    } else {
        let i = word / stride;
        vstd::arithmetic::div_mod::lemma_fundamental_div_mod(word, stride);
        assert(i * stride <= word < i * stride + stride && i < last && i >= 0) by (nonlinear_arith)
            requires
                word == stride * i + word % stride,
                0 <= word % stride < stride,
                word < last * stride,
                word >= 0,
                stride > 0,
        ;
        i
    }
}

/// Every window advances, and shares no more words with the next than it
/// holds, whatever the configuration.
pub proof fn windows_advance(config: ChunkConfig)
    ensures
        0 < config.stride() <= config.window(),
        config.overlap() < config.window(),
{
}

/// A window holds three words for four tokens, rounded down, and at least one; so
/// does the overlap, which is kept below the window, and two windows that follow
/// each other share just that many words.
pub proof fn three_words_for_four_tokens(config: ChunkConfig)
    ensures
        config.max_tokens >= 2 ==> 4 * config.window() <= 3 * config.max_tokens < 4 * (
        config.window() + 1),
        config.max_tokens < 2 ==> config.window() == 1,
        3 * config.overlap_tokens < 4 * config.window() ==> 4 * config.overlap() <= 3
            * config.overlap_tokens < 4 * (config.overlap() + 1),
        3 * config.overlap_tokens >= 4 * config.window() ==> config.overlap() == config.window()
            - 1,
        config.stride() + config.overlap() == config.window(),
{
}

proof fn lemma_windows_stop(all: Seq<Seq<char>>, config: ChunkConfig, first: int, i: int)
    requires
        0 <= first,
        first * config.stride() < all.len(),
        0 <= i < windows(
            all,
            first * config.stride(),
            config.window(),
            config.stride(),
        ).len() - 1,
    ensures
        (first + i) * config.stride() + config.window() < all.len(),
    decreases all.len() - first * config.stride(),
{
    let stride = config.stride();
    let start = first * stride;
    if start + config.window() < all.len() {
        assert((first + 1) * stride == start + stride) by (nonlinear_arith)
            requires
                start == first * stride,
        ;
        if i > 0 {
            lemma_windows_stop(all, config, first + 1, i - 1);
        }
    }
}

/// There is no chunk too many: none but the last reaches the end of the text, and a
/// text that fits a window is one chunk, of all its words.
pub proof fn there_is_no_chunk_too_many(text: Seq<char>, config: ChunkConfig, i: int)
    requires
        words(text).len() > 0,
    ensures
        0 <= i < chunks_of(text, config).len() - 1 ==> i * config.stride() + config.window()
            < words(text).len(),
        words(text).len() <= config.window() ==> chunks_of(text, config) == seq![
            joined(words(text), " "@),
        ],
{
    let all = words(text);
    assert(0int * config.stride() == 0);
    if 0 <= i < chunks_of(text, config).len() - 1 {
        lemma_windows_stop(all, config, 0, i);
    }
    if all.len() <= config.window() {
        assert(all.subrange(0, all.len() as int) =~= all);
    }
}

}
