use std::collections::HashSet;

use semcast::error::SemcastError;
use semcast::index::chunk::{chunk_text, ChunkConfig};
use semcast::index::dedupe::greedy_groups;
use semcast::index::kmeans::{
    grouping, representatives, Clusterer, Clustering, Grouping, Lcg, Lloyd, Step, Sweep, SEED,
    SILHOUETTE_SAMPLE,
};
use semcast::index::registry::{dataset_name, IndexRegistry};
use semcast::index::store::{
    check_vectors, embed_batch, index_metadata, keep_hits, open_metadata, parse_meta,
    plan_documents, probe_dimension, query_vector, IndexMeta,
    EMBED_BATCH,
};
use semcast::index::{distinct_texts, doc_hash, refresh_texts, ChunkHit, SearchParams};
use semcast::number::{Double, Single};

fn single(x: f32) -> Single {
    Single { bits: x.to_bits() }
}

fn words(n: usize) -> String {
    (0..n)
        .map(|i| format!("w{i}"))
        .collect::<Vec<_>>()
        .join(" ")
}

#[test]
fn empty_and_whitespace_yield_no_chunks() {
    let config = ChunkConfig::default();
    assert!(chunk_text("", &config).is_empty());
    assert!(chunk_text("  \n\t ", &config).is_empty());
}

#[test]
fn short_text_is_one_normalized_chunk() {
    let chunks = chunk_text("  hello\n  world ", &ChunkConfig::default());
    assert_eq!(chunks, vec!["hello world"]);
}

#[test]
fn default_config_windows_and_overlap() {
    let config = ChunkConfig::default();
    let chunks = chunk_text(&words(800), &config);
    assert_eq!(chunks.len(), 3);
    assert_eq!(chunks[0].split_whitespace().count(), 384);
    assert_eq!(chunks[1].split_whitespace().count(), 384);
    assert_eq!(chunks[2].split_whitespace().count(), 128);
    assert!(chunks[0].contains("w350"));
    assert!(chunks[1].contains("w350"));
}

#[test]
fn exact_window_length_is_a_single_chunk() {
    let config = ChunkConfig::default();
    let chunks = chunk_text(&words(384), &config);
    assert_eq!(chunks.len(), 1);
}

#[test]
fn degenerate_config_still_advances() {
    let config = ChunkConfig {
        max_tokens: 4,
        overlap_tokens: 100,
    };
    let chunks = chunk_text(&words(10), &config);
    assert!(chunks.len() >= 2);
    assert!(chunks.iter().all(|c| !c.is_empty()));
}

#[test]
fn every_word_lands_in_some_chunk() {
    let config = ChunkConfig {
        max_tokens: 8,
        overlap_tokens: 3,
    };
    let text = words(50);
    let chunks = chunk_text(&text, &config);
    for word in text.split_whitespace() {
        assert!(chunks.iter().any(|c| c.split_whitespace().any(|w| w == word)));
    }
}

#[test]
fn doc_hash_matches_fnv1a_golden_values() {
    assert_eq!(doc_hash(""), 0xcbf2_9ce4_8422_2325);
    assert_eq!(doc_hash("a"), 0xaf63_dc4c_8601_ec8c);
    assert_eq!(doc_hash("hello world"), 0x779a_65e7_023c_d2e7);
}

#[test]
fn doc_hash_distinguishes_texts() {
    assert_ne!(doc_hash("meeting one"), doc_hash("meeting two"));
}

#[test]
fn documents_are_read_once_and_nulls_left_out() {
    let column = vec![
        Some("a".to_owned()),
        None,
        Some("b".to_owned()),
        Some("a".to_owned()),
    ];
    let texts = distinct_texts(&column, None);
    assert_eq!(texts, vec!["a", "b"]);
    assert_eq!(distinct_texts(&column, Some(1)), vec!["a"]);
    let indexed: HashSet<u64> = [doc_hash("a")].into_iter().collect();
    assert_eq!(refresh_texts(&texts, &indexed), vec!["b"]);
}

// Cosine similarity of every point to those before it.
fn similarities(points: &[Vec<f32>]) -> Vec<Vec<Single>> {
    points
        .iter()
        .enumerate()
        .map(|(i, a)| {
            points[..i]
                .iter()
                .map(|b| {
                    let dot: f32 = a.iter().zip(b).map(|(a, b)| a * b).sum();
                    let norm = a.iter().map(|v| v * v).sum::<f32>().sqrt()
                        * b.iter().map(|v| v * v).sum::<f32>().sqrt();
                    single(if norm > 0.0 { dot / norm } else { 0.0 })
                })
                .collect()
        })
        .collect()
}

fn groups(points: &[Vec<f32>], threshold: f32) -> Vec<usize> {
    greedy_groups(&similarities(points), single(threshold))
}

#[test]
fn identical_points_share_a_representative() {
    let points = vec![vec![1.0, 0.0], vec![1.0, 0.0], vec![0.0, 1.0]];
    assert_eq!(groups(&points, 0.9), vec![0, 0, 2]);
}

#[test]
fn the_first_point_of_a_group_represents_it() {
    let points = vec![vec![1.0, 0.0], vec![1.0, 0.0], vec![1.0, 0.0]];
    assert_eq!(groups(&points, 0.9), vec![0, 0, 0], "the first row is the survivor");
}

#[test]
fn a_strict_threshold_keeps_near_neighbours_apart() {
    let points = vec![vec![1.0, 0.0], vec![0.98, 0.2]];
    assert_eq!(groups(&points, 0.9), vec![0, 0]);
    assert_eq!(groups(&points, 0.99), vec![0, 1]);
}

#[test]
fn a_point_joins_its_nearest_representative() {
    let points = vec![vec![1.0, 0.0], vec![0.0, 1.0], vec![0.9, 0.44]];
    assert_eq!(groups(&points, 0.5)[2], 0, "closer to the first representative");
}

#[test]
fn a_threshold_of_one_only_merges_exact_matches() {
    let points = vec![vec![1.0, 0.0], vec![0.999, 0.0447], vec![1.0, 0.0]];
    let groups = groups(&points, 1.0);
    assert_eq!(groups[0], 0);
    assert_eq!(groups[2], 0, "exactly parallel still merges");
    assert_eq!(groups[1], 1, "very close is not the same");
}

#[test]
fn dedupe_no_points_is_not_a_panic() {
    assert!(groups(&[], 0.9).is_empty());
}

fn blobs() -> Vec<Vec<f32>> {
    let centres = [[0.0, 0.0], [10.0, 0.0], [0.0, 10.0]];
    let mut points = Vec::new();
    for centre in centres {
        for i in 0..8 {
            let jitter = i as f32 * 0.01;
            points.push(vec![centre[0] + jitter, centre[1] - jitter]);
        }
    }
    points
}

fn distance(a: &[f32], b: &[f32]) -> f32 {
    a.iter().zip(b).map(|(a, b)| (a - b) * (a - b)).sum()
}

fn seeded(points: &[Vec<f32>], k: usize) -> Vec<Vec<f32>> {
    let mut rng = Lcg::new(SEED);
    let mut centroids = vec![points[rng.below(points.len())].clone()];
    while centroids.len() < k {
        let weights: Vec<f64> = points
            .iter()
            .map(|point| {
                centroids
                    .iter()
                    .map(|centroid| distance(point, centroid) as f64)
                    .fold(f64::INFINITY, f64::min)
            })
            .collect();
        let total: f64 = weights.iter().sum();
        if total <= 0.0 {
            centroids.push(points[rng.below(points.len())].clone());
            continue;
        }
        let mut target = rng.next() as f64 / (1u64 << 31) as f64 * total;
        let mut chosen = points.len() - 1;
        for (i, weight) in weights.iter().enumerate() {
            target -= weight;
            if target <= 0.0 {
                chosen = i;
                break;
            }
        }
        centroids.push(points[chosen].clone());
    }
    centroids
}

fn recentre(
    points: &[Vec<f32>],
    assignments: &[usize],
    k: usize,
    previous: &[Vec<f32>],
) -> Vec<Vec<f32>> {
    let mut centroids = previous.to_vec();
    for (cluster, centroid) in centroids.iter_mut().enumerate().take(k) {
        let mut sum = vec![0.0f32; points[0].len()];
        let mut count = 0usize;
        for (point, &own) in points.iter().zip(assignments) {
            if own == cluster {
                for (slot, value) in sum.iter_mut().zip(point) {
                    *slot += value;
                }
                count += 1;
            }
        }
        if count > 0 {
            *centroid = sum.iter().map(|v| v / count as f32).collect();
        }
    }
    centroids
}

fn mean_distance(points: &[Vec<f32>], point: usize, members: &[usize], skip: bool) -> f64 {
    let others: Vec<f64> = members
        .iter()
        .filter(|&&o| !(skip && o == point))
        .map(|&o| distance(&points[point], &points[o]) as f64)
        .collect();
    if others.is_empty() {
        0.0
    } else {
        others.iter().sum::<f64>() / others.len() as f64
    }
}

fn silhouette(points: &[Vec<f32>], clustering: &Clustering) -> f64 {
    if clustering.k < 2 || points.len() <= clustering.k {
        return -1.0;
    }
    let members = clustering.members();
    let mut total = 0.0;
    let mut scored = 0usize;
    let stride = points.len().div_ceil(SILHOUETTE_SAMPLE).max(1);
    for i in (0..points.len()).step_by(stride) {
        let own = clustering.assignments[i];
        scored += 1;
        if members[own].len() < 2 {
            continue;
        }
        let cohesion = mean_distance(points, i, &members[own], true);
        let separation = (0..clustering.k)
            .filter(|&c| c != own && !members[c].is_empty())
            .map(|c| mean_distance(points, i, &members[c], false))
            .fold(f64::INFINITY, f64::min);
        if separation.is_finite() {
            let spread = cohesion.max(separation);
            if spread > 0.0 {
                total += (separation - cohesion) / spread;
            }
        }
    }
    total / scored as f64
}

fn cluster(points: &[Vec<f32>], k: Option<usize>) -> Clustering {
    let mut clusterer = Clusterer::start(points.len(), k);
    let mut centroids: Vec<Vec<f32>> = Vec::new();
    loop {
        clusterer = match clusterer {
            Clusterer::Done(clustering) => return clustering,
            Clusterer::Measuring { lloyd, sweep } => {
                centroids = if lloyd.rounds == 0 {
                    seeded(points, lloyd.k)
                } else {
                    recentre(points, &lloyd.assignments, lloyd.k, &centroids)
                };
                let distances: Vec<Vec<Single>> = points
                    .iter()
                    .map(|p| centroids.iter().map(|c| single(distance(p, c))).collect())
                    .collect();
                Clusterer::Measuring { lloyd, sweep }.take_distances(&distances)
            }
            Clusterer::Scoring { clustering, sweep } => {
                let score = Double {
                    bits: silhouette(points, &clustering).to_bits(),
                };
                Clusterer::Scoring { clustering, sweep }.take_score(score)
            }
        };
    }
}

#[test]
fn separates_well_separated_blobs() {
    let points = blobs();
    let clustering = cluster(&points, Some(3));
    assert_eq!(clustering.k, 3);
    for blob in 0..3 {
        let first = clustering.assignments[blob * 8];
        assert!(
            clustering.assignments[blob * 8..(blob + 1) * 8]
                .iter()
                .all(|&c| c == first),
            "blob {blob} was split: {:?}",
            clustering.assignments
        );
    }
}

#[test]
fn is_deterministic_across_runs() {
    let points = blobs();
    assert_eq!(cluster(&points, Some(3)), cluster(&points, Some(3)));
    assert_eq!(cluster(&points, None), cluster(&points, None));
}

#[test]
fn silhouette_prefers_the_true_shape() {
    let points = blobs();
    let three = silhouette(&points, &cluster(&points, Some(3)));
    let two = silhouette(&points, &cluster(&points, Some(2)));
    assert!(three > two, "3 blobs: {three} should beat 2: {two}");

    // A sweep takes the better one of the two.
    let mut sweep = Sweep::new(points.len());
    for score in [two, three] {
        let k = sweep.next_k().unwrap();
        sweep.report(Double { bits: score.to_bits() }, cluster(&points, Some(k)));
    }
    assert_eq!(sweep.winner(), Some(cluster(&points, Some(4))));
}

#[test]
fn auto_k_lands_near_the_true_shape() {
    let clustering = cluster(&blobs(), None);
    assert!(
        (2..=4).contains(&clustering.k),
        "auto-k chose {}",
        clustering.k
    );
}

#[test]
fn more_clusters_than_points_gives_one_each() {
    let points = vec![vec![0.0, 0.0], vec![1.0, 1.0]];
    let clustering = cluster(&points, Some(8));
    assert_eq!(clustering.k, 2);
    assert_ne!(clustering.assignments[0], clustering.assignments[1]);
    assert_eq!(clustering.assignments, vec![1, 0], "numbered as they were seeded");
}

#[test]
fn equal_points_are_still_one_cluster_each() {
    let points = vec![vec![1.0, 1.0], vec![1.0, 1.0]];
    for k in [Some(2), Some(8), None] {
        let clustering = cluster(&points, k);
        assert_eq!(clustering.k, 2);
        assert_eq!(clustering.assignments, vec![0, 1]);
    }
    assert_eq!(grouping(3, Some(0)), Grouping::Fixed(1));
    assert_eq!(grouping(3, Some(2)), Grouping::Fixed(2));
    assert_eq!(grouping(3, Some(8)), Grouping::Fixed(3));
    assert_eq!(grouping(2, None), Grouping::Fixed(2));
    assert_eq!(grouping(3, None), Grouping::Sweep);
    assert_eq!(grouping(0, Some(3)), Grouping::Empty);
}

#[test]
fn a_point_that_shares_its_cluster_takes_a_free_one() {
    let mut lloyd = Lloyd::new(4, 9);
    let row = |near: usize| (0..4).map(|c| single(if c == near { 0.0 } else { 1.0 })).collect();
    let distances: Vec<Vec<Single>> = [2, 0, 2, 2].into_iter().map(row).collect();
    lloyd.step(&distances);
    assert_eq!(lloyd.step(&distances), Step::Done);
    assert_eq!(lloyd.clustering().assignments, vec![2, 0, 1, 3]);
}

#[test]
fn the_automatic_clustering_is_that_of_its_number() {
    let points = blobs();
    let clustering = cluster(&points, None);
    assert_eq!(clustering, cluster(&points, Some(clustering.k)));
    for k in [2, 4, 8, 16] {
        let other = silhouette(&points, &cluster(&points, Some(k)));
        assert!(other <= silhouette(&points, &clustering));
    }
}

#[test]
fn the_smallest_of_the_best_wins_the_sweep() {
    let mut sweep = Sweep::new(9);
    let scores = [0.5_f64, 0.7, 0.7];
    for score in scores {
        let k = sweep.next_k().unwrap();
        let clustering = Clustering {
            assignments: vec![0; 9],
            k,
        };
        sweep.report(Double { bits: score.to_bits() }, clustering);
    }
    assert_eq!(sweep.next_k(), None);
    assert_eq!(sweep.winner().unwrap().k, 4);
}

#[test]
fn kmeans_no_points_is_not_a_panic() {
    let clustering = cluster(&[], Some(4));
    assert_eq!(clustering.k, 0);
    assert!(clustering.assignments.is_empty());
}

#[test]
fn representatives_sit_nearest_the_centre() {
    let points = blobs();
    let clustering = cluster(&points, Some(3));
    let mut distances = vec![single(0.0); points.len()];
    for members in clustering.members() {
        let mut centre = vec![0.0f32; 2];
        for &m in &members {
            for (slot, value) in centre.iter_mut().zip(&points[m]) {
                *slot += value;
            }
        }
        for value in &mut centre {
            *value /= members.len() as f32;
        }
        for &m in &members {
            distances[m] = single(distance(&points[m], &centre));
        }
    }
    let reps = representatives(&clustering, &distances, 2);
    assert_eq!(reps.len(), 3);
    for members in reps.values() {
        assert_eq!(members.len(), 2);
    }
}

#[test]
fn clusters_hold_every_point_once() {
    let clustering = Clustering {
        assignments: vec![1, 0, 1, 2],
        k: 3,
    };
    assert_eq!(clustering.members(), vec![vec![1], vec![0, 2], vec![3]]);
}

#[test]
fn an_index_opens_for_the_model_that_built_it() {
    let config = ChunkConfig {
        max_tokens: 300,
        overlap_tokens: 20,
    };
    let meta = index_metadata(768, "voyage/voyage-3", &config);
    assert_eq!(
        open_metadata("/tmp/x.lance", &meta, "voyage/voyage-3"),
        Ok(IndexMeta { dim: 768, config })
    );
    assert_eq!(
        open_metadata("/tmp/x.lance", &meta, "mock"),
        Err(SemcastError::Index(
            "index at /tmp/x.lance was built with embed model voyage/voyage-3, \
             but the session embeds with mock"
                .to_owned()
        ))
    );
    assert_eq!(
        open_metadata("/tmp/x.lance", &vec![], "mock"),
        Err(SemcastError::Index(
            "/tmp/x.lance is not a semcast index (no embed-model metadata)".to_owned()
        ))
    );
}

#[test]
fn metadata_that_is_no_number_is_refused() {
    let refused = Err(SemcastError::Index(
        "u has missing or invalid semcast.embed_dim metadata".to_owned(),
    ));
    let bad = "12x".to_owned();
    assert_eq!(parse_meta(Some(&bad), "u", "semcast.embed_dim"), refused);
    assert_eq!(parse_meta(None, "u", "semcast.embed_dim"), refused);
    let good = "12".to_owned();
    assert_eq!(parse_meta(Some(&good), "u", "semcast.embed_dim"), Ok(12));
}

#[test]
fn documents_are_cut_into_numbered_chunks() {
    let config = ChunkConfig {
        max_tokens: 4,
        overlap_tokens: 0,
    };
    let texts = vec!["a b c d".to_owned(), "   ".to_owned(), "e".to_owned()];
    let (chunks, docs) = plan_documents(&texts, &config);
    assert_eq!(docs, 2, "a blank document has no chunk");
    let got: Vec<(u64, u32, &str)> = chunks
        .iter()
        .map(|c| (c.doc_hash, c.chunk_index, c.text.as_str()))
        .collect();
    assert_eq!(
        got,
        vec![
            (doc_hash("a b c d"), 0, "a b c"),
            (doc_hash("a b c d"), 1, "d"),
            (doc_hash("e"), 0, "e"),
        ]
    );
    assert_eq!(embed_batch(&chunks, 1, EMBED_BATCH), vec!["d", "e"]);
}

#[test]
fn long_corpora_are_embedded_in_batches() {
    let config = ChunkConfig {
        max_tokens: 1,
        overlap_tokens: 0,
    };
    let (chunks, _) = plan_documents(&vec![words(100)], &config);
    assert_eq!(chunks.len(), 100);
    assert_eq!(embed_batch(&chunks, 0, EMBED_BATCH).len(), 64);
    assert_eq!(embed_batch(&chunks, 64, EMBED_BATCH).len(), 36);
    assert_eq!(embed_batch(&chunks, 64, EMBED_BATCH)[0], "w64");

    // A hosted provider may prefer fewer, larger calls.
    assert_eq!(embed_batch(&chunks, 0, 128).len(), 100);
    assert_eq!(embed_batch(&chunks, 90, 7), vec!["w90", "w91", "w92", "w93", "w94", "w95", "w96"]);
}

#[test]
fn vectors_have_the_dimension_of_the_index() {
    assert_eq!(probe_dimension(&vec![vec![1, 2, 3]], "m"), Ok(3));
    assert_eq!(
        probe_dimension(&vec![vec![]], "m"),
        Err(SemcastError::Index(
            "embedder m returned an empty embedding".to_owned()
        ))
    );
    assert_eq!(check_vectors(&vec![vec![1, 2], vec![3, 4]], 2, "m"), Ok(()));
    assert_eq!(
        check_vectors(&vec![vec![1, 2], vec![3]], 2, "m"),
        Err(SemcastError::Index(
            "embedder m returned dimension 1, index stores 2".to_owned()
        ))
    );
    assert_eq!(query_vector(vec![vec![1, 2]], 2, "m"), Ok(vec![1, 2]));
    assert_eq!(
        query_vector(vec![], 2, "m"),
        Err(SemcastError::Index(
            "embedder m did not return a 2-dimensional query vector".to_owned()
        ))
    );
}

#[test]
fn hits_below_the_floor_are_dropped() {
    let hit = |doc: u64, score: f32| ChunkHit {
        doc_hash: doc,
        chunk_index: 0,
        score: single(score),
        text: "t".to_owned(),
    };
    let kept = keep_hits(
        vec![hit(1, 0.9), hit(2, 0.2), hit(3, 0.35)],
        SearchParams::default().score_floor,
    );
    let docs: Vec<u64> = kept.iter().map(|h| h.doc_hash).collect();
    assert_eq!(docs, vec![1, 3]);
}

#[test]
fn default_search_floor_is_the_documented_one() {
    let params = SearchParams::default();
    assert_eq!(f32::from_bits(params.score_floor.bits), 0.35);
    assert_eq!(params.fetch_k, 256);
    assert_eq!(params.chunks_per_doc, 3);
    assert_eq!(
        f32::from_bits(semcast::index::dedupe::DEFAULT_SIMILARITY),
        0.9
    );
}

#[test]
fn an_index_is_found_for_its_own_column_only() {
    let mut registry = IndexRegistry::new();
    assert_eq!(registry.index_for("meetings", "transcript"), None);
    registry.register_index("meetings", "transcript", 0);
    registry.register_index("emails", "body", 1);
    registry.register_index("meetings", "transcript", 2);
    assert_eq!(registry.index_for("meetings", "transcript"), Some(2));
    assert_eq!(registry.index_for("emails", "body"), Some(1));
    assert_eq!(registry.index_for("emails", "transcript"), None);
    assert_eq!(registry.index_to_refresh("emails", "body"), Ok(1));
    assert_eq!(
        registry.index_to_refresh("emails", "subject"),
        Err(SemcastError::Index(
            "no semantic index on emails(subject)".to_owned()
        ))
    );
    assert_eq!(dataset_name("emails", "body"), "emails.body.lance");
}
