use vecstore::{NodeRecord, StoreDocument, StoreError, VectorStore};

fn cosine_key(a: &Vec<f32>, b: &Vec<f32>) -> u32 {
    let dot: f32 = a.iter().zip(b).map(|(x, y)| x * y).sum();
    let n1: f32 = a.iter().map(|x| x * x).sum::<f32>().sqrt();
    let n2: f32 = b.iter().map(|x| x * x).sum::<f32>().sqrt();
    let d = if n1 == 0.0 || n2 == 0.0 { 1.0 } else { 1.0 - (dot / (n1 * n2)).clamp(-1.0, 1.0) };
    d.to_bits()
}

const GROUND: u32 = u32::MAX;

fn sample_store() -> VectorStore<f32> {
    let mut store = VectorStore::new(4);
    let draws = [0u32, GROUND, 100_000_000, GROUND, 5, GROUND, GROUND];
    for (i, d) in draws.iter().enumerate() {
        let v = vec![(i as f32).sin(), (i as f32).cos(), 0.5 + i as f32 * 0.1];
        let src = if i % 2 == 0 { Some(format!("f{}.txt#chunk{}", i % 3, i + 1)) } else { None };
        store.add_drawn(v, format!("text {}", i), src, 100 + i as u128, *d, &cosine_key).unwrap();
    }
    store
}

fn listing(doc: &StoreDocument<f32>) -> Vec<Vec<(u128, Vec<u128>)>> {
    doc.layers
        .iter()
        .map(|l| l.iter().map(|r| (r.id, r.neighbors.clone())).collect())
        .collect()
}

#[test]
fn save_then_load_gives_the_same_store() {
    let store = sample_store();
    let doc = store.save();
    assert_eq!(doc.max_connections, 4);
    assert_eq!(doc.dim, Some(3));
    assert_eq!(doc.layers[0].len(), 7);
    assert_eq!(doc.texts.len(), 7);
    assert_eq!(doc.sources.len(), 4);
    let back = VectorStore::load(&doc).ok().unwrap();
    assert_eq!(back.get_all_ids(), store.get_all_ids());
    assert_eq!(back.text_count(), 7);
    assert_eq!(back.max_connections(), 4);
    let again = back.save();
    assert_eq!(listing(&again), listing(&doc));
    assert_eq!(again.texts, doc.texts);
    assert_eq!(again.sources, doc.sources);
    for id in store.get_all_ids() {
        assert_eq!(back.get_embedding(&id), store.get_embedding(&id));
    }
    for q in [vec![1.0, 0.0, 0.0], vec![0.2, 0.9, 0.4]] {
        let a: Vec<(u128, u32)> = store.query(&q, 5, &cosine_key).unwrap().iter().map(|h| (h.id, h.distance)).collect();
        let b: Vec<(u128, u32)> = back.query(&q, 5, &cosine_key).unwrap().iter().map(|h| (h.id, h.distance)).collect();
        assert_eq!(a, b);
    }
}

#[test]
fn empty_store_round_trips() {
    let store: VectorStore<f32> = VectorStore::new(16);
    let doc = store.save();
    assert!(doc.layers.is_empty());
    assert_eq!(doc.dim, None);
    let back = VectorStore::load(&doc).ok().unwrap();
    assert_eq!(back.text_count(), 0);
    assert_eq!(back.max_connections(), 16);
    assert_eq!(back.dimension(), None);
}

#[test]
fn unknown_neighbor_is_corrupt() {
    let store = sample_store();
    let mut doc = store.save();
    doc.layers[0][1].neighbors.push(999_999);
    assert_eq!(VectorStore::load(&doc).err(), Some(StoreError::CorruptStore));
}

#[test]
fn neighbor_outside_its_layer_is_corrupt() {
    let store = sample_store();
    let mut doc = store.save();
    assert!(doc.layers.len() >= 2);
    let upper: Vec<u128> = doc.layers[1].iter().map(|r| r.id).collect();
    let lower_only = doc.layers[0].iter().map(|r| r.id).find(|id| !upper.contains(id)).unwrap();
    let rec = &mut doc.layers[1][0];
    rec.neighbors.clear();
    rec.neighbors.push(lower_only);
    assert_eq!(VectorStore::load(&doc).err(), Some(StoreError::CorruptStore));
}

#[test]
fn text_for_unknown_node_is_corrupt() {
    let store = sample_store();
    let mut doc = store.save();
    doc.texts.push((424242, "stray".to_string()));
    assert_eq!(VectorStore::load(&doc).err(), Some(StoreError::CorruptStore));
}

#[test]
fn missing_text_is_corrupt() {
    let store = sample_store();
    let mut doc = store.save();
    doc.texts.pop();
    assert_eq!(VectorStore::load(&doc).err(), Some(StoreError::CorruptStore));
}

#[test]
fn node_skipping_a_layer_is_corrupt() {
    let mut doc: StoreDocument<f32> = StoreDocument {
        dim: Some(1),
        max_connections: 4,
        layers: vec![
            vec![NodeRecord { id: 1, vector: vec![1.0], neighbors: vec![] }],
            vec![NodeRecord { id: 2, vector: vec![1.0], neighbors: vec![] }],
        ],
        texts: vec![(1, "a".to_string())],
        sources: vec![],
    };
    assert_eq!(VectorStore::load(&doc).err(), Some(StoreError::CorruptStore));
    doc.layers[1][0].id = 1;
    let store = VectorStore::load(&doc).ok().unwrap();
    assert_eq!(store.get_all_ids(), vec![1]);
}

#[test]
fn bad_parameters_are_corrupt() {
    let store = sample_store();
    let mut doc = store.save();
    doc.max_connections = 1;
    assert_eq!(VectorStore::load(&doc).err(), Some(StoreError::CorruptStore));
    let mut doc = store.save();
    doc.layers[0][0].vector.push(1.0);
    assert_eq!(VectorStore::load(&doc).err(), Some(StoreError::CorruptStore));
    let mut doc = store.save();
    doc.dim = None;
    assert_eq!(VectorStore::load(&doc).err(), Some(StoreError::CorruptStore));
    let mut doc = store.save();
    let dup = doc.layers[0][0].id;
    doc.layers[0][1].id = dup;
    assert_eq!(VectorStore::load(&doc).err(), Some(StoreError::CorruptStore));
}
