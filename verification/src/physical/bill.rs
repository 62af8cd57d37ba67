//! The bill before you run: how many rows an operator passes on, and the line
//! that it is shown by, with the model calls that it makes at most.

use vstd::prelude::*;

use crate::cache::Contents;
use crate::index::kmeans::AUTO_K;
use crate::index::{distinct_documents, hash_of};
use crate::model::ModelId;
use crate::physical::classify::Classifier;
use crate::physical::extract::Extractor;
use crate::physical::rank::{rows_sharing_a_text_share_a_call, Ranker};
use crate::physical::{hits, misses, misses_are_the_unanswered};
use crate::text::{concat3, decimal, occurs_in, push_decimal};

verus! {

/// How many rows there are, as far as it is known before a query runs.
#[derive(Debug, Clone, Copy, PartialEq, Eq, Structural)]
pub enum Rows {
    Exact(usize),
    Inexact(usize),
    Absent,
}

impl Rows {
    /// How many rows are left of some once at most `cap` are passed on: it is
    /// known before the query runs that no more are, not how many.
    pub fn capped(self, cap: usize) -> (r: Rows)
        ensures
            r == Rows::Inexact(
                match self {
                    Rows::Exact(rows) | Rows::Inexact(rows) => if rows <= cap {
                        rows
                    } else {
                        cap
                    },
                    Rows::Absent => cap,
                },
            ),
    {
        match self {
            Rows::Exact(rows) | Rows::Inexact(rows) => if rows <= cap {
                Rows::Inexact(rows)
            } else {
                Rows::Inexact(cap)
            },
            Rows::Absent => Rows::Inexact(cap),
        }
    }

    /// The model calls of one per row. It is a ceiling: what the cache answers
    /// and what is null is free.
    pub open spec fn calls(self) -> Seq<char> {
        match self {
            Rows::Exact(rows) => "   \u{2264}"@ + decimal(rows as nat) + " model calls"@,
            Rows::Inexact(rows) => "   ~"@ + decimal(rows as nat) + " model calls"@,
            Rows::Absent => "   model calls unknown"@,
        }
    }

    fn push_calls(self, line: &mut String)
        ensures
            final(line)@ == old(line)@ + self.calls(),
    {
        let ghost start = line@;
        match self {
            Rows::Exact(rows) => {
                line.append("   \u{2264}");
                push_decimal(line, rows as u64);
                line.append(" model calls");
            },
            Rows::Inexact(rows) => {
                line.append("   ~");
                push_decimal(line, rows as u64);
                line.append(" model calls");
            },
            Rows::Absent => {
                line.append("   model calls unknown");
            },
        }
        assert(line@ =~= start + self.calls());
    }
}

/// The floor of an index scan, as it is shown.
#[derive(Debug)]
pub enum Floor<'a> {
    /// Found on a sample of at most so many rows when the query runs: the
    /// contract is shown, not a number.
    Calibrated { recall: &'a str, sample: usize },
    /// A fixed score.
    Fixed(&'a str),
}

/// The line of a verify stage, and the chunks it reads of each document, where
/// an index scan feeds it.
pub fn verify_line(condition: &str, model: &ModelId, chunks: Option<usize>, rows: Rows) -> (r:
    String)
    ensures
        r@ == "VerifyExec: MEANS('"@ + condition@ + "') model="@ + model@ + match chunks {
            Some(n) => " reads top-"@ + decimal(n as nat) + " chunks per doc"@,
            None => Seq::empty(),
        } + rows.calls(),
{
    let mut line: String = concat3("VerifyExec: MEANS('", condition, "') model=");
    line.append(model.0.as_str());
    let ghost head = line@;
    if let Some(n) = chunks {
        line.append(" reads top-");
        push_decimal(&mut line, n as u64);
        line.append(" chunks per doc");
        assert(line@ =~= head + (" reads top-"@ + decimal(n as nat) + " chunks per doc"@));
    } else {
        assert(line@ =~= head + Seq::<char>::empty());
    }
    rows.push_calls(&mut line);
    line
}

/// The line of an index scan.
pub fn index_scan_line(condition: &str, embed_model: &ModelId, floor: &Floor, chunks: usize) -> (r:
    String)
    ensures
        r@ == "IndexScanExec: MEANS('"@ + condition@ + "') embed_model="@ + embed_model@ + " "@
            + match *floor {
            Floor::Calibrated { recall, sample } => "floor=calibrated(recall\u{2265}"@ + recall@
                + ", sample\u{2264}"@ + decimal(sample as nat) + ") top-"@ + decimal(chunks as nat)
                + " chunks"@,
            Floor::Fixed(score) => "floor="@ + score@ + " top-"@ + decimal(chunks as nat)
                + " chunks (threshold best-effort \u{2014} no WITH RECALL)"@,
        },
{
    let mut line: String = concat3("IndexScanExec: MEANS('", condition, "') embed_model=");
    line.append(embed_model.0.as_str());
    line.append(" ");
    let ghost head = line@;
    match floor {
        Floor::Calibrated { recall, sample } => {
            line.append("floor=calibrated(recall\u{2265}");
            line.append(recall);
            line.append(", sample\u{2264}");
            push_decimal(&mut line, *sample as u64);
            line.append(") top-");
            push_decimal(&mut line, chunks as u64);
            line.append(" chunks");
            assert(line@ =~= head + ("floor=calibrated(recall\u{2265}"@ + recall@
                + ", sample\u{2264}"@ + decimal(*sample as nat) + ") top-"@ + decimal(
                chunks as nat,
            ) + " chunks"@));
        },
        Floor::Fixed(score) => {
            line.append("floor=");
            line.append(score);
            line.append(" top-");
            push_decimal(&mut line, chunks as u64);
            line.append(" chunks (threshold best-effort \u{2014} no WITH RECALL)");
            assert(line@ =~= head + ("floor="@ + score@ + " top-"@ + decimal(chunks as nat)
                + " chunks (threshold best-effort \u{2014} no WITH RECALL)"@));
        },
    }
    line
}

/// The line of a classify stage. The conditions are fused, so it makes one call
/// per row rather than one per condition.
pub fn classify_line(conditions: usize, model: &ModelId, gated: bool, rows: Rows) -> (r: String)
    ensures
        r@ == "SemClassifyExec: "@ + decimal(conditions as nat) + " condition(s) model="@ + model@
            + (if gated {
            " gated"@
        } else {
            Seq::empty()
        }) + rows.calls(),
{
    let mut line: String = "SemClassifyExec: ".to_owned();
    push_decimal(&mut line, conditions as u64);
    line.append(" condition(s) model=");
    line.append(model.0.as_str());
    let ghost head = line@;
    if gated {
        line.append(" gated");
    } else {
        assert(line@ =~= head + Seq::<char>::empty());
    }
    rows.push_calls(&mut line);
    line
}

/// The line of an extract stage: one call per row at most.
pub fn extract_line(target: &str, fields: usize, model: &ModelId, rows: Rows) -> (r: String)
    ensures
        r@ == "SemExtractExec: "@ + target@ + " ["@ + decimal(fields as nat)
            + " field(s)] model="@ + model@ + rows.calls(),
{
    let mut line: String = concat3("SemExtractExec: ", target, " [");
    push_decimal(&mut line, fields as u64);
    line.append(" field(s)] model=");
    line.append(model.0.as_str());
    rows.push_calls(&mut line);
    line
}

/// The line of a cluster stage: one call per group at most, and the largest
/// number of groups that the sweep tries where the query did not say.
pub fn cluster_line(k: Option<usize>, embed_model: &ModelId, model: &ModelId) -> (r: String)
    ensures
        r@ == "SemClusterExec: MEANING OF INTO "@ + match k {
            Some(k) => decimal(k as nat) + "   \u{2264}"@ + decimal(k as nat),
            None => "auto (sweeping [2, 4, 8, 16, 32])   \u{2264}"@ + decimal(AUTO_K[4] as nat),
        } + " model calls embed_model="@ + embed_model@ + " model="@ + model@,
{
    let mut line: String = "SemClusterExec: MEANING OF INTO ".to_owned();
    let ghost head = line@;
    match k {
        Some(k) => {
            push_decimal(&mut line, k as u64);
            line.append("   \u{2264}");
            push_decimal(&mut line, k as u64);
            assert(line@ =~= head + (decimal(k as nat) + "   \u{2264}"@ + decimal(k as nat)));
        },
        None => {
            line.append("auto (sweeping [2, 4, 8, 16, 32])   \u{2264}");
            push_decimal(&mut line, AUTO_K[4] as u64);
            assert(line@ =~= head + ("auto (sweeping [2, 4, 8, 16, 32])   \u{2264}"@ + decimal(
                AUTO_K[4] as nat,
            )));
        },
    }
    line.append(" model calls embed_model=");
    line.append(embed_model.0.as_str());
    line.append(" model=");
    line.append(model.0.as_str());
    line
}

/// The line of a dedupe stage, which asks no model.
pub fn distinct_line(similarity: &str, embed_model: &ModelId) -> (r: String)
    ensures
        r@ == "SemDistinctExec: SIMILARITY \u{2265} "@ + similarity@ + " embed_model="@
            + embed_model@ + "   0 model calls"@,
{
    let mut line: String = concat3(
        "SemDistinctExec: SIMILARITY \u{2265} ",
        similarity,
        " embed_model=",
    );
    line.append(embed_model.0.as_str());
    line.append("   0 model calls");
    line
}

/// The line of a rank stage: one call per candidate at most.
pub fn rank_line(
    query: &str,
    embed_model: &ModelId,
    model: &ModelId,
    chunks: usize,
    candidates: usize,
) -> (r: String)
    ensures
        r@ == "SemRankExec: RELEVANCE TO '"@ + query@ + "' embed_model="@ + embed_model@
            + " model="@ + model@ + " top-"@ + decimal(chunks as nat) + " chunks   \u{2264}"@
            + decimal(candidates as nat) + " model calls"@,
{
    let mut line: String = concat3("SemRankExec: RELEVANCE TO '", query, "' embed_model=");
    line.append(embed_model.0.as_str());
    line.append(" model=");
    line.append(model.0.as_str());
    line.append(" top-");
    push_decimal(&mut line, chunks as u64);
    line.append(" chunks   \u{2264}");
    push_decimal(&mut line, candidates as u64);
    line.append(" model calls");
    line
}

/// The bill is a ceiling: of some questions, the model is asked at most as many
/// as the cache leaves.
pub proof fn the_bill_is_a_ceiling(keys: Seq<Option<crate::cache::KeyView>>, c: Contents)
    ensures
        misses(keys, c).len() + hits(keys, c) <= keys.len(),
    decreases keys.len(),
{
    if keys.len() > 0 {
        the_bill_is_a_ceiling(keys.drop_last(), c);
    }
}

/// A classify stage makes at most one call per row, however many conditions
/// there are.
pub proof fn fused_conditions_cost_one_call_per_row(
    s: &Classifier,
    texts: Seq<Option<Seq<char>>>,
    guard: Option<Seq<Option<bool>>>,
    c: Contents,
)
    ensures
        s.planned_rows(texts, guard, c).len() <= texts.len(),
    decreases texts.len(),
{
    if texts.len() > 0 {
        fused_conditions_cost_one_call_per_row(s, texts.drop_last(), guard, c);
    }
}

/// An extract stage makes at most one call per row, however many fields there
/// are.
pub proof fn fused_fields_cost_one_call_per_row(
    e: &Extractor,
    texts: Seq<Option<Seq<char>>>,
    c: Contents,
)
    ensures
        e.planned_rows(texts, c).len() <= texts.len(),
    decreases texts.len(),
{
    if texts.len() > 0 {
        fused_fields_cost_one_call_per_row(e, texts.drop_last(), c);
    }
}

/// A rank stage makes at most one call per candidate, however many rows there
/// are.
pub proof fn a_ranking_asks_at_most_its_candidates(
    r: &Ranker,
    texts: Seq<Option<Seq<char>>>,
    evidence: Map<u64, Seq<Seq<char>>>,
    c: Contents,
)
    requires
        evidence.dom().finite(),
    ensures
        misses(r.keys(distinct_documents(texts), evidence), c).len() <= evidence.len(),
{
    let docs = distinct_documents(texts);
    let keys = r.keys(docs, evidence);
    let m = misses(keys, c);
    misses_are_the_unanswered(keys, c);
    rows_sharing_a_text_share_a_call(texts);
    let asked = Seq::new(m.len(), |j: int| hash_of(docs[m[j]]));
    assert forall|i: int, j: int| 0 <= i < j < asked.len() implies asked[i] != asked[j] by {
        assert(m[i] < m[j]);
    }
    assert(asked.no_duplicates());
    assert forall|h: u64| asked.to_set().contains(h) implies evidence.dom().contains(h) by {
        let j = choose|j: int| 0 <= j < asked.len() && asked[j] == h;
        assert(keys[m[j]] is Some);
    }
    asked.unique_seq_to_set();
    vstd::set_lib::lemma_len_subset(asked.to_set(), evidence.dom());
}

/// A bill says its number, and whether it is known or guessed; where nothing is
/// known it says so.
pub proof fn a_bill_says_its_number(rows: Rows, other: Rows)
    ensures
        rows matches Rows::Exact(n) ==> occurs_in(decimal(n as nat) + " model calls"@, rows.calls()),
        rows matches Rows::Inexact(n) ==> occurs_in(
            decimal(n as nat) + " model calls"@,
            rows.calls(),
        ),
        rows is Exact && !(other is Exact) ==> rows.calls() != other.calls(),
        rows is Inexact && !(other is Inexact) ==> rows.calls() != other.calls(),
{
    lemma_fourth(rows);
    lemma_fourth(other);
    match rows {
        Rows::Exact(n) => {
            lemma_said("   \u{2264}"@, decimal(n as nat), " model calls"@);
        },
        Rows::Inexact(n) => {
            lemma_said("   ~"@, decimal(n as nat), " model calls"@);
        },
        Rows::Absent => {},
    }
}

proof fn lemma_said(head: Seq<char>, number: Seq<char>, tail: Seq<char>)
    ensures
        occurs_in(number + tail, head + number + tail),
{
    let whole = head + number + tail;
    let at = head.len() as int;
    assert(whole.subrange(at, at + (number + tail).len()) =~= number + tail);
}

proof fn lemma_fourth(rows: Rows)
    ensures
        rows.calls()[3] == match rows {
            Rows::Exact(_) => '\u{2264}',
            Rows::Inexact(_) => '~',
            Rows::Absent => 'm',
        },
{
    reveal_strlit("   \u{2264}");
    reveal_strlit("   ~");
    reveal_strlit("   model calls unknown");
    assert("   \u{2264}"@[3] == '\u{2264}' && "   ~"@[3] == '~');
    assert("   model calls unknown"@[3] == 'm');
}

}
