use db::{Chunks, Comics, Database, SectionType, EMBEDDING_DIM};

fn setup() -> Database {
    Database::new()
}

fn make_comic(n: u64) -> Comics {
    Comics {
        comic_number: n,
        title: format!("C{}", n),
        url: format!("https://explainxkcd.com/{}", n),
        xkcd_url: format!("https://xkcd.com/{}", n),
        hover_text: Some(format!("H{}", n)),
        last_revision_id: 12345,
        last_revision_timestamp: "20250127000000".to_string(),
        scraped_at: "2025-01-27T00:00:00Z".to_string(),
        updated_at: "2025-01-27T00:00:00Z".to_string(),
    }
}

fn make_chunk(comic: u64, idx: u64) -> Chunks {
    Chunks {
        id: Some(0),
        comic_number: comic,
        chunk_text: format!("Chunk {}", idx),
        chunk_index: idx,
        section_type: Some(SectionType::Explanation),
        embedding: vec![0.5f32.to_bits(); EMBEDDING_DIM],
    }
}

#[test]
fn test_insert_chunk() {
    let mut db = setup();
    db.insert_comic(make_comic(1)).unwrap();
    assert!(db.insert_chunk(make_chunk(1, 0)).is_ok());
}

#[test]
fn test_insert_chunk_wrong_embedding_size() {
    let mut db = setup();
    db.insert_comic(make_comic(1)).unwrap();
    let mut chunk = make_chunk(1, 0);
    chunk.embedding = vec![0.0f32.to_bits(); 100];
    assert!(db.insert_chunk(chunk).is_err());
}

#[test]
fn test_insert_chunk_nonexistent_comic_fails() {
    let mut db = setup();
    assert!(db.insert_chunk(make_chunk(999, 0)).is_err());
}

#[test]
fn test_insert_chunks_batch() {
    let mut db = setup();
    db.insert_comic(make_comic(1)).unwrap();
    let chunks = vec![make_chunk(1, 0), make_chunk(1, 1)];
    assert!(db.insert_chunks_batch(chunks).is_ok());
    assert_eq!(db.get_chunks_for_comic(1).unwrap().len(), 2);
}

#[test]
fn test_insert_chunks_batch_validates_all_embeddings() {
    let mut db = setup();
    db.insert_comic(make_comic(1)).unwrap();
    let mut bad = make_chunk(1, 1);
    bad.embedding = vec![0.0f32.to_bits(); 50];
    let chunks = vec![make_chunk(1, 0), bad, make_chunk(1, 2)];
    assert!(db.insert_chunks_batch(chunks).is_err());
    assert_eq!(db.get_chunks_for_comic(1).unwrap().len(), 0);
}

#[test]
fn test_insert_chunks_batch_rollback_on_foreign_key_violation() {
    let mut db = setup();

    // Insert one comic
    db.insert_comic(make_comic(1)).unwrap();

    // Create batch with valid and invalid chunks
    let chunks = vec![
        make_chunk(1, 0),   // Valid - comic 1 exists
        make_chunk(999, 0), // Invalid - comic 999 doesn't exist
    ];

    // Batch insert should fail due to foreign key violation
    let result = db.insert_chunks_batch(chunks);
    assert!(result.is_err());

    // Verify rollback: comic 1 should have ZERO chunks
    assert_eq!(db.get_chunks_for_comic(1).unwrap().len(), 0);
}

#[test]
fn test_get_chunks_for_comic() {
    let mut db = setup();
    db.insert_comic(make_comic(42)).unwrap();
    db.insert_chunk(make_chunk(42, 2)).unwrap();
    db.insert_chunk(make_chunk(42, 0)).unwrap();
    db.insert_chunk(make_chunk(42, 1)).unwrap();
    let chunks = db.get_chunks_for_comic(42).unwrap();
    assert_eq!(chunks.len(), 3);
    assert_eq!(chunks[0].chunk_index, 0);
    assert_eq!(chunks[1].chunk_index, 1);
    assert_eq!(chunks[2].chunk_index, 2);
}

#[test]
fn test_get_chunks_for_nonexistent_comic() {
    let db = setup();
    assert_eq!(db.get_chunks_for_comic(999).unwrap().len(), 0);
}

#[test]
fn test_delete_chunks_for_comic() {
    let mut db = setup();
    db.insert_comic(make_comic(10)).unwrap();
    for i in 0..3 {
        db.insert_chunk(make_chunk(10, i)).unwrap();
    }
    let deleted = db.delete_chunks_for_comic(10).unwrap();
    assert_eq!(deleted, 3);
    assert_eq!(db.get_chunks_for_comic(10).unwrap().len(), 0);
}

#[test]
fn test_delete_chunks_returns_zero_if_none() {
    let mut db = setup();
    assert_eq!(db.delete_chunks_for_comic(999).unwrap(), 0);
}

#[test]
fn test_vector_search() {
    let mut db = setup();
    db.insert_comic(make_comic(1)).unwrap();
    db.insert_comic(make_comic(2)).unwrap();
    let mut c1 = make_chunk(1, 0);
    c1.embedding = vec![1.0f32.to_bits(); EMBEDDING_DIM];
    let mut c2 = make_chunk(2, 0);
    c2.embedding = vec![0.0f32.to_bits(); EMBEDDING_DIM];
    db.insert_chunk(c1).unwrap();
    db.insert_chunk(c2).unwrap();
    let query = vec![0.9f32.to_bits(); EMBEDDING_DIM];
    let results = db.vector_search(query, 2).unwrap();
    assert_eq!(results.len(), 2);
    // The store returns the top K candidate rows; no similarity order is
    // promised beyond what the retrieval primitive gives.
    let comic_numbers: Vec<u64> = results.iter().map(|r| r.comic_number).collect();
    assert!(comic_numbers.contains(&1));
    assert!(comic_numbers.contains(&2));
}

#[test]
fn test_vector_search_invalid_embedding_dimension() {
    let db = setup();
    let query = vec![0.5f32.to_bits(); 100];
    assert!(db.vector_search(query, 10).is_err());
}

#[test]
fn test_embedding_roundtrip() {
    let mut db = setup();
    db.insert_comic(make_comic(1)).unwrap();
    let mut chunk = make_chunk(1, 0);
    let floats: Vec<f32> = vec![0.123f32, 0.456f32, 0.789f32]
        .into_iter()
        .cycle()
        .take(EMBEDDING_DIM)
        .collect();
    chunk.embedding = floats.iter().map(|f| f.to_bits()).collect();
    db.insert_chunk(chunk.clone()).unwrap();
    let retrieved = db.get_chunks_for_comic(1).unwrap();
    for (o, r) in chunk.embedding.iter().zip(retrieved[0].embedding.iter()) {
        assert!((f32::from_bits(*o) - f32::from_bits(*r)).abs() < 0.0001);
    }
}

#[test]
fn test_section_type_roundtrip() {
    let mut db = setup();
    db.insert_comic(make_comic(1)).unwrap();
    let mut chunk = make_chunk(1, 0);
    chunk.section_type = Some(SectionType::Trivia);
    db.insert_chunk(chunk).unwrap();
    let retrieved = db.get_chunks_for_comic(1).unwrap();
    assert!(matches!(
        retrieved[0].section_type,
        Some(SectionType::Trivia)
    ));
}
