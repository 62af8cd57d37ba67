//! Hosted embeddings. There are no completion models here: verify calls go to
//! another provider. As this one only embeds, its identifier already names the
//! embedding model.

use vstd::prelude::*;

use crate::error::SemcastError;
use crate::index::store::Vector;
use crate::model::ollama::{count_error, wrong_count};
use crate::model::ModelId;
use crate::sort::{order, sort, sorted, sorting_keeps_the_values, Ordered};
use crate::text::{concat3, drop_trailing, quoted, quoted_of, trim_end_of, Class};

verus! {

pub const DEFAULT_VOYAGE_URL: &'static str = "https://api.voyageai.com";

pub const DEFAULT_VOYAGE_MODEL: &'static str = "voyage-3";

pub const NO_COMPLETIONS: &'static str =
    "Voyage offers no completion models; use AnthropicProvider or OllamaProvider for verify calls";

pub const NO_VOYAGE_KEY: &'static str =
    "VOYAGE_API_KEY is not set; export it or use OllamaProvider to embed";

/// Where the API is, which key opens it, and which model embeds. It has no
/// `Debug`: the key is never printed.
pub struct VoyageProvider {
    pub base_url: String,
    pub api_key: String,
    pub model: String,
}

impl VoyageProvider {
    pub fn new(api_key: &str, model: &str) -> (r: Self)
        ensures
            r.base_url@ == DEFAULT_VOYAGE_URL@,
            r.api_key@ == api_key@,
            r.model@ == model@,
    {
        VoyageProvider {
            base_url: DEFAULT_VOYAGE_URL.to_owned(),
            api_key: api_key.to_owned(),
            model: model.to_owned(),
        }
    }

    /// Talks to another server; slashes at the end of its address are dropped.
    pub fn with_base_url(self, base_url: &str) -> (r: Self)
        ensures
            r.base_url@ == drop_trailing(base_url@, Class::Slash),
            r.api_key == self.api_key,
            r.model == self.model,
    {
        VoyageProvider { base_url: trim_end_of(base_url, Class::Slash), ..self }
    }

    /// The identifier of the model.
    pub fn id(&self) -> (r: ModelId)
        ensures
            r@ == "voyage/"@ + self.model@,
    {
        ModelId("voyage/".to_owned().concat(self.model.as_str()))
    }

    /// The identifier of the embedding model, which is the only one.
    pub fn embed_model_id(&self) -> (r: ModelId)
        ensures
            r@ == "voyage/"@ + self.model@,
    {
        self.id()
    }

    /// Where texts to embed are sent.
    pub fn embed_url(&self) -> (r: String)
        ensures
            r@ == self.base_url@ + "/v1/embeddings"@,
    {
        self.base_url.clone().concat("/v1/embeddings")
    }

    /// What opens the API.
    pub fn authorization(&self) -> (r: String)
        ensures
            r@ == "Bearer "@ + self.api_key@,
    {
        "Bearer ".to_owned().concat(self.api_key.as_str())
    }

    /// The answer to some completion requests: each fails on its own.
    pub fn no_completions(&self, requests: usize) -> (r: Vec<SemcastError>)
        ensures
            r@.len() == requests,
            forall|i: int|
                0 <= i < requests ==> (#[trigger] r@[i]).is_model(NO_COMPLETIONS@),
    {
        let mut out: Vec<SemcastError> = Vec::new();
        while out.len() < requests
            invariant
                out@.len() <= requests,
                forall|i: int|
                    0 <= i < out@.len() ==> (#[trigger] out@[i]).is_model(NO_COMPLETIONS@),
            decreases requests - out.len(),
        {
            out.push(SemcastError::Model(NO_COMPLETIONS.to_owned()));
        }
        out
    }

    /// The provider as it is logged: without its key.
    pub fn describe(&self) -> (r: String)
        ensures
            r@ == "VoyageProvider { base_url: "@ + quoted(self.base_url@) + ", model: "@ + quoted(
                self.model@,
            ) + ", api_key: \"[redacted]\" }"@,
    {
        let base_url = quoted_of(self.base_url.as_str());
        let model = quoted_of(self.model.as_str());
        let mut line: String = concat3(
            "VoyageProvider { base_url: ",
            base_url.as_str(),
            ", model: ",
        );
        line.append(model.as_str());
        line.append(", api_key: \"[redacted]\" }");
        line
    }
}

/// One embedding of an answer, and the input that it is of.
#[derive(Debug)]
pub struct EmbedData {
    pub embedding: Vector,
    pub index: usize,
}

/// Which input a part of an answer is of, and where it stands in the answer.
#[derive(Debug, Clone, Copy, PartialEq, Eq, Structural)]
pub struct Place {
    pub index: usize,
    pub at: usize,
}

impl Ordered for Place {
    open spec fn le(a: Place, b: Place) -> bool {
        a.index < b.index || (a.index == b.index && a.at <= b.at)
    }

    proof fn lemma_total() {
    }

    fn precedes(&self, other: &Place) -> (r: bool) {
        self.index < other.index || (self.index == other.index && self.at <= other.at)
    }
}

/// The places of the parts of an answer.
pub open spec fn places(data: Seq<EmbedData>) -> Seq<Place> {
    Seq::new(data.len(), |i: int| Place { index: data[i].index, at: i as usize })
}

/// The embeddings of an answer, in the order of the inputs; parts of the same
/// input stay in the order of the answer.
pub open spec fn in_index_order(data: Seq<EmbedData>) -> Seq<Vector> {
    sorted(places(data)).map_values(|p: Place| data[p.at as int].embedding)
}

/// The embeddings of an answer, where there is one for each input. The API tags
/// each with its index: going by that, a reordered answer can never misalign
/// vectors.
pub fn embeddings_in_order(data: &Vec<EmbedData>, inputs: usize) -> (r: Result<
    Vec<Vector>,
    SemcastError,
>)
    ensures
        match r {
            Ok(vectors) => data@.len() == inputs && vectors@.len() == inputs && forall|i: int|
                0 <= i < inputs ==> (#[trigger] vectors@[i])@ == in_index_order(data@)[i]@,
            Err(e) => data@.len() != inputs && e.is_model(
                wrong_count("voyage"@, data@.len(), inputs as nat),
            ),
        },
{
    if data.len() != inputs {
        return Err(count_error("voyage", data.len(), inputs));
    }
    let ghost want = places(data@);
    let mut marks: Vec<Place> = Vec::new();
    let mut i: usize = 0;
    while i < data.len()
        invariant
            i <= data.len(),
            want == places(data@),
            marks@ == want.take(i as int),
        decreases data.len() - i,
    {
        marks.push(Place { index: data[i].index, at: i });
        assert(marks@ =~= want.take(i + 1));
        i += 1;
    }
    assert(want.take(i as int) =~= want);
    let in_order = sort(&marks);
    proof {
        sorting_keeps_the_values(want);
    }
    let mut out: Vec<Vector> = Vec::new();
    let mut k: usize = 0;
    while k < in_order.len()
        invariant
            k <= in_order.len(),
            want == places(data@),
            in_order@ == sorted(want),
            in_order@.len() == data@.len(),
            forall|x: Place| in_order@.contains(x) <==> want.contains(x),
            out@.len() == k,
            forall|j: int|
                0 <= j < k ==> (#[trigger] out@[j])@ == in_index_order(data@)[j]@,
        decreases in_order.len() - k,
    {
        let p = in_order[k];
        proof {
            assert(in_order@.contains(in_order@[k as int]));
            assert(want.contains(p));
            let j = choose|j: int| 0 <= j < want.len() && want[j] == p;
            assert(p.at == j);
        }
        let copied = copy_vector(&data[p.at].embedding);
        assert(in_index_order(data@)[k as int] == data@[p.at as int].embedding);
        out.push(copied);
        k += 1;
    }
    Ok(out)
}

fn copy_vector(v: &Vector) -> (r: Vector)
    ensures
        r@ == v@,
{
    let mut out: Vector = Vec::new();
    let mut i: usize = 0;
    while i < v.len()
        invariant
            i <= v.len(),
            out@ == v@.take(i as int),
        decreases v.len() - i,
    {
        out.push(v[i]);
        assert(out@ =~= v@.take(i + 1));
        i += 1;
    }
    assert(v@.take(i as int) =~= v@);
    out
}

/// Where an answer has one part for each input, in whatever order, the vector of
/// each input comes out at that input.
pub proof fn a_reordered_answer_never_misaligns(data: Seq<EmbedData>, i: int)
    requires
        data.len() <= usize::MAX,
        0 <= i < data.len(),
        forall|k: int| 0 <= k < data.len() ==> (#[trigger] data[k]).index < data.len(),
        forall|j: int, k: int|
            0 <= j < k < data.len() ==> (#[trigger] data[j]).index != (#[trigger] data[k]).index,
    ensures
        in_index_order(data)[data[i].index as int] == data[i].embedding,
{
    let want = places(data);
    let s = sorted(want);
    sorting_keeps_the_values(want);
    let n = data.len() as int;
    assert forall|k: int| 0 <= k < n implies {
        &&& 0 <= (#[trigger] s[k]).at < n
        &&& s[k].index == data[s[k].at as int].index
    } by {
        assert(s.contains(s[k]));
        assert(want.contains(s[k]));
        let j = choose|j: int| 0 <= j < want.len() && want[j] == s[k];
        assert(want[j].at == j);
    }
    assert forall|j: int, k: int| 0 <= j < k < n implies s[j].index < s[k].index by {
        lemma_distinct_places(data, j, k);
    }
    lemma_ladder(s.map_values(|p: Place| p.index as int), n);
    let b = data[i].index as int;
    assert(s.map_values(|p: Place| p.index as int)[b] == b);
    assert(s[b].index == data[s[b].at as int].index);
    if s[b].at != i {
        if s[b].at < i {
            assert(data[s[b].at as int].index != data[i].index);
        } else {
            assert(data[i].index != data[s[b].at as int].index);
        }
    }
}

proof fn lemma_distinct_places(data: Seq<EmbedData>, j: int, k: int)
    requires
        data.len() <= usize::MAX,
        0 <= j < k < data.len(),
        forall|a: int, b: int|
            0 <= a < b < data.len() ==> (#[trigger] data[a]).index != (#[trigger] data[b]).index,
    ensures
        sorted(places(data))[j].index < sorted(places(data))[k].index,
{
    let want = places(data);
    let s = sorted(want);
    sorting_keeps_the_values(want);
    let le = order::<Place>();
    assert(le(s[j], s[k]));
    if s[j].index == s[k].index {
        assert(s.contains(s[j]) && s.contains(s[k]));
        assert(want.contains(s[j]) && want.contains(s[k]));
        let a = choose|a: int| 0 <= a < want.len() && want[a] == s[j];
        let b = choose|b: int| 0 <= b < want.len() && want[b] == s[k];
        if a < b {
            assert(data[a].index != data[b].index);
        } else if b < a {
            assert(data[b].index != data[a].index);
        } else {
            assert(s[j] == s[k]);
            assert(want.no_duplicates()) by {
                assert forall|x: int, y: int| 0 <= x < want.len() && 0 <= y < want.len() && x
                    != y implies want[x] != want[y] by {
                    assert(want[x].at == x && want[y].at == y);
                }
            }
            lemma_sorted_distinct(want, j, k);
        }
    }
}

proof fn lemma_sorted_distinct(want: Seq<Place>, j: int, k: int)
    requires
        want.no_duplicates(),
        0 <= j < k < want.len(),
    ensures
        sorted(want)[j] != sorted(want)[k],
{
    broadcast use vstd::seq_lib::group_to_multiset_ensures;

    let s = sorted(want);
    sorting_keeps_the_values(want);
    want.lemma_multiset_has_no_duplicates();
    if s[j] == s[k] {
        assert(s.to_multiset().count(s[j]) <= 1);
        let before = s.take(k);
        let after = s.skip(k);
        assert(s =~= before + after);
        vstd::seq_lib::lemma_multiset_commutative(before, after);
        assert(before.to_multiset().contains(before[j]));
        assert(after.to_multiset().contains(after[0]));
        assert(before[j] == s[j] && after[0] == s[k]);
        assert(s.to_multiset().count(s[j]) == before.to_multiset().count(s[j])
            + after.to_multiset().count(s[j]));
    }
}

/// As many rising numbers below `n` as there are such numbers are those numbers.
proof fn lemma_ladder(s: Seq<int>, n: int)
    requires
        s.len() == n,
        forall|k: int| 0 <= k < n ==> 0 <= #[trigger] s[k] < n,
        forall|j: int, k: int| 0 <= j < k < n ==> #[trigger] s[j] < #[trigger] s[k],
    ensures
        forall|k: int| 0 <= k < n ==> #[trigger] s[k] == k,
{
    assert forall|k: int| 0 <= k < n implies #[trigger] s[k] == k by {
        lemma_climb(s, n, k);
        lemma_descend(s, n, k);
    }
}

proof fn lemma_climb(s: Seq<int>, n: int, k: int)
    requires
        s.len() == n,
        0 <= k < n,
        forall|k: int| 0 <= k < n ==> 0 <= #[trigger] s[k] < n,
        forall|j: int, k: int| 0 <= j < k < n ==> #[trigger] s[j] < #[trigger] s[k],
    ensures
        s[k] >= k,
    decreases k,
{
    if k > 0 {
        lemma_climb(s, n, k - 1);
        assert(s[k - 1] < s[k]);
    }
}

proof fn lemma_descend(s: Seq<int>, n: int, k: int)
    requires
        s.len() == n,
        0 <= k < n,
        forall|k: int| 0 <= k < n ==> 0 <= #[trigger] s[k] < n,
        forall|j: int, k: int| 0 <= j < k < n ==> #[trigger] s[j] < #[trigger] s[k],
    ensures
        s[k] <= k,
    decreases n - k,
{
    if k < n - 1 {
        lemma_descend(s, n, k + 1);
        assert(s[k] < s[k + 1]);
    }
}

}
