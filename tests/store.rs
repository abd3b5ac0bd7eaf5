use rand::rngs::StdRng;
use rand::{Rng, SeedableRng};
use vecstore::{chunk_source_tag, level_for_draw, QueryHit, StoreError, StoredEmbedding, VectorStore};

fn cosine_distance(a: &[f32], b: &[f32]) -> f32 {
    let dot: f32 = a.iter().zip(b).map(|(x, y)| x * y).sum();
    let n1: f32 = a.iter().map(|x| x * x).sum::<f32>().sqrt();
    let n2: f32 = b.iter().map(|x| x * x).sum::<f32>().sqrt();
    if n1 == 0.0 || n2 == 0.0 {
        return 1.0;
    }
    1.0 - (dot / (n1 * n2)).clamp(-1.0, 1.0)
}

fn cosine_key(a: &Vec<f32>, b: &Vec<f32>) -> u32 {
    cosine_distance(a, b).to_bits()
}

fn similarity(hit: &QueryHit) -> f32 {
    1.0 - f32::from_bits(hit.distance)
}

/// A draw that keeps a node at layer 0 for every degree cap.
const GROUND: u32 = u32::MAX;

#[test]
fn empty_store_query_returns_nothing() {
    let store: VectorStore<f32> = VectorStore::new(16);
    let hits = store.query(&vec![1.0, 2.0, 3.0], 5, &cosine_key).unwrap();
    assert!(hits.is_empty());
    assert_eq!(store.text_count(), 0);
    assert!(store.get_all_ids().is_empty());
}

#[test]
fn single_node_answers_every_query() {
    let mut store: VectorStore<f32> = VectorStore::new(4);
    let id = store.add(vec![1.0, 0.0, 0.0], "only".to_string(), &cosine_key).unwrap();
    for q in [vec![1.0, 0.0, 0.0], vec![0.0, 1.0, 0.0], vec![-1.0, 0.0, 0.0], vec![0.3, 0.4, 0.5]] {
        for k in [1usize, 2, 10] {
            let hits = store.query(&q, k, &cosine_key).unwrap();
            assert_eq!(hits.len(), 1);
            assert_eq!(hits[0].id, id);
            assert_eq!(hits[0].text, "only");
            let expected = 1.0 - cosine_distance(&q, &[1.0, 0.0, 0.0]);
            assert_eq!(similarity(&hits[0]), expected);
        }
    }
}

#[test]
fn zero_vector_is_accepted_at_distance_one() {
    let mut store: VectorStore<f32> = VectorStore::new(4);
    store.add(vec![0.0, 0.0, 0.0], "zero".to_string(), &cosine_key).unwrap();
    store.add(vec![1.0, 2.0, 3.0], "other".to_string(), &cosine_key).unwrap();
    let hits = store.query(&vec![0.0, 0.0, 0.0], 2, &cosine_key).unwrap();
    assert_eq!(hits.len(), 2);
    for h in &hits {
        assert_eq!(f32::from_bits(h.distance), 1.0);
        assert!(!similarity(h).is_nan());
    }
    let hits = store.query(&vec![4.0, 5.0, 6.0], 2, &cosine_key).unwrap();
    assert_eq!(hits[1].text, "zero");
    assert_eq!(similarity(&hits[1]), 0.0);
}

#[test]
fn k_larger_than_count_returns_count() {
    let mut store: VectorStore<f32> = VectorStore::new(4);
    store.add(vec![1.0, 0.0], "a".to_string(), &cosine_key).unwrap();
    store.add(vec![0.0, 1.0], "b".to_string(), &cosine_key).unwrap();
    let hits = store.query(&vec![1.0, 1.0], 10, &cosine_key).unwrap();
    assert_eq!(hits.len(), store.text_count());
}

#[test]
fn unit_vectors_rank_with_stable_ties() {
    let mut store: VectorStore<f32> = VectorStore::new(2);
    let e1 = store.add_drawn(vec![1.0, 0.0, 0.0], "e1".to_string(), None, 1, GROUND, &cosine_key).unwrap();
    let e2 = store.add_drawn(vec![0.0, 1.0, 0.0], "e2".to_string(), None, 2, GROUND, &cosine_key).unwrap();
    let e3 = store.add_drawn(vec![0.0, 0.0, 1.0], "e3".to_string(), None, 3, GROUND, &cosine_key).unwrap();
    let hits = store.query(&vec![1.0, 0.0, 0.0], 3, &cosine_key).unwrap();
    let ids: Vec<u128> = hits.iter().map(|h| h.id).collect();
    assert_eq!(ids, vec![e1, e2, e3]);
    let sims: Vec<f32> = hits.iter().map(similarity).collect();
    assert_eq!(sims, vec![1.0, 0.0, 0.0]);
}

#[test]
fn unit_vectors_rank_with_random_levels() {
    let mut store: VectorStore<f32> = VectorStore::new(2);
    store.add(vec![1.0, 0.0, 0.0], "e1".to_string(), &cosine_key).unwrap();
    store.add(vec![0.0, 1.0, 0.0], "e2".to_string(), &cosine_key).unwrap();
    store.add(vec![0.0, 0.0, 1.0], "e3".to_string(), &cosine_key).unwrap();
    let hits = store.query(&vec![1.0, 0.0, 0.0], 3, &cosine_key).unwrap();
    let texts: Vec<&str> = hits.iter().map(|h| h.text.as_str()).collect();
    assert_eq!(texts, vec!["e1", "e2", "e3"]);
    let sims: Vec<f32> = hits.iter().map(similarity).collect();
    assert_eq!(sims, vec![1.0, 0.0, 0.0]);
}

#[test]
fn one_document_query_reports_its_source() {
    let mut store: VectorStore<f32> = VectorStore::new(4);
    store
        .add_with_filename(
            vec![1.0, 0.0, 0.0],
            "alpha beta gamma".to_string(),
            Some("doc.txt#chunk1".to_string()),
            &cosine_key,
        )
        .unwrap();
    let hits = store.query(&vec![1.0, 0.0, 0.0], 1, &cosine_key).unwrap();
    assert_eq!(hits.len(), 1);
    assert!((similarity(&hits[0]) - 1.0).abs() < 1e-6);
    assert_eq!(hits[0].source.as_deref(), Some("doc.txt#chunk1"));
    assert_eq!(hits[0].text, "alpha beta gamma");
}

#[test]
fn wrong_dimension_is_rejected_and_store_unchanged() {
    let mut store: VectorStore<f32> = VectorStore::new(4);
    let id = store.add(vec![1.0, 2.0, 3.0], "a".to_string(), &cosine_key).unwrap();
    let err = store.add(vec![1.0, 2.0, 3.0, 4.0], "b".to_string(), &cosine_key).unwrap_err();
    assert_eq!(err, StoreError::DimensionMismatch { expected: 3, found: 4 });
    assert_eq!(store.text_count(), 1);
    assert_eq!(store.get_all_ids(), vec![id]);
    let err = store.query(&vec![1.0, 2.0], 1, &cosine_key).err().unwrap();
    assert_eq!(err, StoreError::DimensionMismatch { expected: 3, found: 2 });
    assert_eq!(store.dimension(), Some(3));
}

#[test]
fn taken_identifier_is_rejected() {
    let mut store: VectorStore<f32> = VectorStore::new(4);
    store.add_drawn(vec![1.0, 0.0], "a".to_string(), None, 7, GROUND, &cosine_key).unwrap();
    let err = store.add_drawn(vec![0.0, 1.0], "b".to_string(), None, 7, GROUND, &cosine_key).unwrap_err();
    assert_eq!(err, StoreError::DuplicateId);
    assert_eq!(store.text_count(), 1);
}

#[test]
fn fetch_by_identifier() {
    let mut store: VectorStore<f32> = VectorStore::new(4);
    let a = store.add_with_filename(vec![1.0, 0.0], "a".to_string(), Some("f#chunk1".to_string()), &cosine_key).unwrap();
    let b = store.add(vec![0.0, 1.0], "b".to_string(), &cosine_key).unwrap();
    assert_ne!(a, b);
    assert_eq!(store.get_embedding(&a), Some(("a".to_string(), Some("f#chunk1".to_string()))));
    assert_eq!(store.get_embedding(&b), Some(("b".to_string(), None)));
    let unknown = a ^ b ^ 1;
    if unknown != a && unknown != b {
        assert_eq!(store.get_embedding(&unknown), None);
    }
    assert_eq!(store.get_all_ids(), vec![a, b]);
}

#[test]
fn fresh_identifiers_are_version_four() {
    let e: StoredEmbedding<f32> = StoredEmbedding::new("x.txt".to_string(), vec![1.0]);
    assert_eq!((e.id >> 76) & 0xF, 4);
    assert_eq!((e.id >> 62) & 0x3, 2);
    let f: StoredEmbedding<f32> = StoredEmbedding::new("x.txt".to_string(), vec![1.0]);
    assert_ne!(e.id, f.id);
}

#[test]
fn stored_embedding_is_added_with_its_file_name() {
    let mut store: VectorStore<f32> = VectorStore::new(4);
    let e = StoredEmbedding::new("notes.txt".to_string(), vec![0.5, 0.5]);
    let id = store.add_stored_embedding(&e, "hello".to_string(), &cosine_key).unwrap();
    assert_eq!(store.get_embedding(&id), Some(("hello".to_string(), Some("notes.txt".to_string()))));
}

#[test]
fn level_follows_the_draw() {
    assert_eq!(level_for_draw(u32::MAX, 16), 0);
    assert_eq!(level_for_draw(0, 16), 8);
    assert_eq!(level_for_draw(0, 2), 32);
    assert_eq!(level_for_draw(268_435_455, 16), 1);
    assert_eq!(level_for_draw(268_435_456, 16), 0);
    assert_eq!(level_for_draw(16_777_215, 16), 2);
    assert_eq!(level_for_draw(u32::MAX, 2), 0);
    assert_eq!(level_for_draw(u32::MAX / 2, 2), 1);
}

fn random_vectors(seed: u64, n: usize, dim: usize) -> (Vec<Vec<f32>>, Vec<u32>) {
    let mut rng = StdRng::seed_from_u64(seed);
    let vectors = (0..n)
        .map(|_| (0..dim).map(|_| rng.gen::<f32>() * 2.0 - 1.0).collect())
        .collect();
    let draws = (0..n).map(|_| rng.gen::<u32>()).collect();
    (vectors, draws)
}

fn build(vectors: &[Vec<f32>], draws: &[u32], m: usize) -> VectorStore<f32> {
    let mut store = VectorStore::new(m);
    for (i, (v, d)) in vectors.iter().zip(draws).enumerate() {
        store
            .add_drawn(v.clone(), format!("text {}", i), Some(format!("src#chunk{}", i + 1)), i as u128 + 1, *d, &cosine_key)
            .unwrap();
    }
    store
}

#[test]
fn seeded_builds_are_identical() {
    let (vectors, draws) = random_vectors(7, 200, 8);
    let a = build(&vectors, &draws, 16);
    let b = build(&vectors, &draws, 16);
    assert_eq!(a.get_all_ids(), b.get_all_ids());
    for q in vectors.iter().take(20) {
        let ha = a.query(q, 5, &cosine_key).unwrap();
        let hb = b.query(q, 5, &cosine_key).unwrap();
        let ka: Vec<(u128, u32)> = ha.iter().map(|h| (h.id, h.distance)).collect();
        let kb: Vec<(u128, u32)> = hb.iter().map(|h| (h.id, h.distance)).collect();
        assert_eq!(ka, kb);
    }
}

#[test]
fn answers_grow_by_prefix_in_k() {
    let (vectors, draws) = random_vectors(11, 150, 6);
    let store = build(&vectors, &draws, 4);
    for q in vectors.iter().take(10) {
        let all = store.query(q, 20, &cosine_key).unwrap();
        for k in 1..20 {
            let part = store.query(q, k, &cosine_key).unwrap();
            assert!(part.len() <= all.len());
            for (x, y) in part.iter().zip(all.iter()) {
                assert_eq!(x.id, y.id);
            }
        }
    }
}

#[test]
fn similarities_stay_in_range() {
    let (vectors, draws) = random_vectors(5, 100, 4);
    let store = build(&vectors, &draws, 8);
    for q in vectors.iter().take(10) {
        for h in store.query(q, 10, &cosine_key).unwrap() {
            let s = similarity(&h);
            assert!((-1.0..=1.0).contains(&s));
        }
    }
}

#[test]
fn info_counts_nodes_and_source_files() {
    let mut store: VectorStore<f32> = VectorStore::new(16);
    let runs = [("a.txt", 2), ("b.txt", 2), ("a.txt", 2)];
    let mut k = 0.0f32;
    for (file, chunks) in runs {
        for n in 1..=chunks {
            k += 1.0;
            store
                .add_with_filename(vec![k, 1.0], format!("chunk {}", n), Some(format!("{}#chunk{}", file, n)), &cosine_key)
                .unwrap();
        }
    }
    assert_eq!(store.text_count(), 6);
    let files: Vec<String> = store.source_files().into_iter().map(|f| f.into_iter().collect()).collect();
    assert_eq!(files, vec!["a.txt".to_string(), "b.txt".to_string()]);
}

#[test]
fn file_part_stops_at_the_first_hash() {
    let mut store: VectorStore<f32> = VectorStore::new(4);
    for (i, tag) in [Some("notes#x#y"), Some("plain"), None, Some("#lead"), Some("notes#z")].into_iter().enumerate() {
        store.add_with_filename(vec![i as f32 + 1.0], "t".to_string(), tag.map(|t| t.to_string()), &cosine_key).unwrap();
    }
    let files: Vec<String> = store.source_files().into_iter().map(|f| f.into_iter().collect()).collect();
    assert_eq!(files, vec!["notes".to_string(), "plain".to_string(), "".to_string()]);
}

#[test]
fn source_tags_number_passages_from_one() {
    assert_eq!(chunk_source_tag(&"doc.txt".to_string(), 0), "doc.txt#chunk1");
    assert_eq!(chunk_source_tag(&"a/b c.md".to_string(), 9), "a/b c.md#chunk10");
    assert_eq!(chunk_source_tag(&"".to_string(), 122), "#chunk123");
    assert_eq!(chunk_source_tag(&"ünï".to_string(), 99), "ünï#chunk100");
}

#[test]
fn zero_vector_add_succeeds_on_an_empty_store() {
    let mut store: VectorStore<f32> = VectorStore::new(16);
    let id = store.add(vec![0.0; 4], "zero".to_string(), &cosine_key).unwrap();
    assert_eq!(store.text_count(), 1);
    assert_eq!(store.get_embedding(&id), Some(("zero".to_string(), None)));
    let id2 = store.add(vec![0.0; 4], "zero again".to_string(), &cosine_key).unwrap();
    assert_ne!(id, id2);
    assert_eq!(store.text_count(), 2);
}
