use db::codec::{decode_embedding_blob, encode_embedding, validate_embedding};
use db::store::str_lt;
use db::{Chunks, Comics, Database, DatabaseError, SectionType, EMBEDDING_DIM};

fn make_comic(number: u64) -> Comics {
    Comics {
        comic_number: number,
        title: format!("Comic {}", number),
        url: format!("https://explainxkcd.com/{}", number),
        xkcd_url: format!("https://xkcd.com/{}", number),
        hover_text: Some(format!("Hover text {}", number)),
        last_revision_id: 7,
        last_revision_timestamp: "20250127000000".to_string(),
        scraped_at: "2025-01-27T00:00:00Z".to_string(),
        updated_at: "2025-01-27T00:00:00Z".to_string(),
    }
}

fn make_chunk(comic: u64, idx: u64) -> Chunks {
    Chunks {
        id: None,
        comic_number: comic,
        chunk_text: format!("Chunk {}", idx),
        chunk_index: idx,
        section_type: Some(SectionType::Transcript),
        embedding: vec![0.25f32.to_bits(); EMBEDDING_DIM],
    }
}

#[test]
fn test_get_comics_batch_sorted_and_deduplicated() {
    let mut db = Database::new();
    for i in 1..=5 {
        db.insert_comic(make_comic(i)).unwrap();
    }
    let batch = db.get_comics_batch(vec![2, 4, 1]).unwrap();
    let numbers: Vec<u64> = batch.iter().map(|c| c.comic_number).collect();
    assert_eq!(numbers, vec![1, 2, 4]);
    let dup = db.get_comics_batch(vec![4, 2, 2, 4, 1, 1]).unwrap();
    let dup_numbers: Vec<u64> = dup.iter().map(|c| c.comic_number).collect();
    assert_eq!(dup_numbers, vec![1, 2, 4]);
}

#[test]
fn test_avg_chunks_per_comic() {
    let mut db = Database::new();
    // An empty store averages to zero chunks per comic.
    assert_eq!(db.count_chunks(), 0);
    assert_eq!(db.count_comics(), 0);
    let empty_avg = if db.count_comics() == 0 {
        0.0f64
    } else {
        db.count_chunks() as f64 / db.count_comics() as f64
    };
    assert_eq!(empty_avg, 0.0);
    // Comic A with three chunks, comic B with one: average 2.0.
    db.insert_comic(make_comic(1)).unwrap();
    db.insert_comic(make_comic(2)).unwrap();
    for i in 0..3 {
        db.insert_chunk(make_chunk(1, i)).unwrap();
    }
    db.insert_chunk(make_chunk(2, 0)).unwrap();
    assert_eq!(db.count_chunks(), 4);
    assert_eq!(db.count_comics(), 2);
    assert_eq!(db.count_chunks() as f64 / db.count_comics() as f64, 2.0);
    assert_eq!(db.count_chunks_for_comic(1), 3);
    assert_eq!(db.count_chunks_for_comic(2), 1);
}

#[test]
fn test_vector_search_filtered_empty_filter_returns_empty() {
    let mut db = Database::new();
    db.insert_comic(make_comic(1)).unwrap();
    db.insert_chunk(make_chunk(1, 0)).unwrap();
    // An empty restriction yields an empty answer, whatever the query.
    let valid = vec![0.5f32.to_bits(); EMBEDDING_DIM];
    assert_eq!(db.vector_search_filtered(valid, 5, vec![]).unwrap().len(), 0);
    let wrong_dimension = vec![0.5f32.to_bits(); 3];
    assert_eq!(
        db.vector_search_filtered(wrong_dimension, 5, vec![]).unwrap().len(),
        0
    );
}

#[test]
fn test_vector_search_filtered_restricts_to_given_comics() {
    let mut db = Database::new();
    db.insert_comic(make_comic(1)).unwrap();
    db.insert_comic(make_comic(2)).unwrap();
    db.insert_chunk(make_chunk(1, 0)).unwrap();
    db.insert_chunk(make_chunk(2, 0)).unwrap();
    db.insert_chunk(make_chunk(2, 1)).unwrap();
    let query = vec![0.5f32.to_bits(); EMBEDDING_DIM];
    let hits = db.vector_search_filtered(query, 10, vec![2]).unwrap();
    assert_eq!(hits.len(), 2);
    assert!(hits.iter().all(|h| h.comic_number == 2));
}

#[test]
fn test_vector_search_joins_comic_fields() {
    let mut db = Database::new();
    db.insert_comic(make_comic(7)).unwrap();
    let mut chunk = make_chunk(7, 0);
    chunk.section_type = Some(SectionType::TitleHover);
    db.insert_chunk(chunk).unwrap();
    let query = vec![0.5f32.to_bits(); EMBEDDING_DIM];
    let hits = db.vector_search(query, 1).unwrap();
    assert_eq!(hits.len(), 1);
    assert_eq!(hits[0].comic_number, 7);
    assert_eq!(hits[0].comic_title, "Comic 7");
    assert_eq!(hits[0].xkcd_url, "https://xkcd.com/7");
    assert_eq!(hits[0].hover_text, Some("Hover text 7".to_string()));
    assert_eq!(hits[0].section_type, Some("title_hover".to_string()));
}

#[test]
fn test_delete_comic_cascades_to_chunks() {
    let mut db = Database::new();
    db.insert_comic(make_comic(3)).unwrap();
    for i in 0..4 {
        db.insert_chunk(make_chunk(3, i)).unwrap();
    }
    assert_eq!(db.count_chunks_for_comic(3), 4);
    db.delete_comic(3).unwrap();
    assert_eq!(db.count_chunks_for_comic(3), 0);
    assert_eq!(db.count_chunks(), 0);
}

#[test]
fn test_update_nonexistent_comic_inserts_nothing() {
    let mut db = Database::new();
    let result = db.update_comic(
        999,
        1,
        "20250101000000".to_string(),
        "2025-01-01T00:00:00Z".to_string(),
    );
    assert!(matches!(result, Err(DatabaseError::ComicNotFound(999))));
    assert!(!db.comic_exists(999).unwrap());
    assert_eq!(db.count_comics(), 0);
}

#[test]
fn test_insert_duplicate_comic_reports_conflict() {
    let mut db = Database::new();
    db.insert_comic(make_comic(5)).unwrap();
    let result = db.insert_comic(make_comic(5));
    assert!(matches!(result, Err(DatabaseError::ComicAlreadyExists(5))));
}

#[test]
fn test_insert_chunk_reports_constraint_violation() {
    let mut db = Database::new();
    let result = db.insert_chunk(make_chunk(41, 0));
    assert!(matches!(result, Err(DatabaseError::ConstraintViolation(41))));
}

#[test]
fn test_validate_embedding_reports_both_lengths() {
    let wrong = vec![0u32; 100];
    match validate_embedding(&wrong) {
        Err(DatabaseError::InvalidEmbeddingDimension { expected, actual }) => {
            assert_eq!(expected, EMBEDDING_DIM);
            assert_eq!(actual, 100);
        }
        other => panic!("expected a dimension error, got {:?}", other),
    }
    let right = vec![0u32; EMBEDDING_DIM];
    assert!(validate_embedding(&right).is_ok());
}

#[test]
fn test_codec_encodes_little_endian() {
    let words = vec![1.0f32.to_bits(), 0u32, 0xA1B2C3D4u32];
    let blob = encode_embedding(&words);
    assert_eq!(
        blob,
        vec![0x00, 0x00, 0x80, 0x3F, 0x00, 0x00, 0x00, 0x00, 0xD4, 0xC3, 0xB2, 0xA1]
    );
    let decoded = decode_embedding_blob(&blob);
    assert_eq!(decoded, words);
}

#[test]
fn test_codec_ignores_trailing_bytes() {
    let blob = vec![0x01, 0x00, 0x00, 0x00, 0xFF, 0xFF];
    let decoded = decode_embedding_blob(&blob);
    assert_eq!(decoded, vec![1u32]);
}

#[test]
fn test_section_type_names() {
    assert_eq!(SectionType::TitleHover.name(), "title_hover");
    assert_eq!(SectionType::Explanation.name(), "explanation");
    assert_eq!(SectionType::Transcript.name(), "transcript");
    assert_eq!(SectionType::Trivia.name(), "trivia");
    assert_eq!(SectionType::Other.name(), "other");
    assert!(matches!(
        SectionType::parse("explanation"),
        Some(SectionType::Explanation)
    ));
    assert!(SectionType::parse("prologue").is_none());
    for s in [
        SectionType::TitleHover,
        SectionType::Explanation,
        SectionType::Transcript,
        SectionType::Trivia,
        SectionType::Other,
    ] {
        assert!(matches!(SectionType::parse(&s.name()), Some(t) if t == s));
    }
}

#[test]
fn test_needing_update_cutoff_is_strict() {
    let mut db = Database::new();
    let mut at_cutoff = make_comic(1);
    at_cutoff.updated_at = "2024-06-01T00:00:00Z".to_string();
    db.insert_comic(at_cutoff).unwrap();
    let mut before_cutoff = make_comic(2);
    before_cutoff.updated_at = "2024-05-31T23:59:59Z".to_string();
    db.insert_comic(before_cutoff).unwrap();
    let stale = db.get_comics_needing_update("2024-06-01T00:00:00Z").unwrap();
    assert_eq!(stale.len(), 1);
    assert_eq!(stale[0].comic_number, 2);
}

#[test]
fn test_error_kind_names() {
    assert_eq!(DatabaseError::NoComicsFound.kind_name(), "no comics found");
    assert_eq!(
        DatabaseError::ComicNotFound(3).kind_name(),
        "comic not found"
    );
    assert_eq!(
        DatabaseError::InvalidEmbeddingDimension { expected: 4, actual: 2 }.kind_name(),
        "invalid embedding dimension"
    );
}

#[test]
fn test_metadata_upsert_and_lookup() {
    let mut db = Database::new();
    // A fresh store records its initialization marker.
    let marker = db.get_metadata("INITIALIZED").unwrap();
    assert_eq!(marker.value, "true");
    // Absence is its own error kind.
    assert!(matches!(
        db.get_metadata("LAST_SYNC"),
        Err(DatabaseError::MetadataNotFound(k)) if k == "LAST_SYNC"
    ));
    // Upsert inserts, overwrites, and is idempotent.
    db.set_metadata("LAST_SYNC", "2025-01-01".to_string()).unwrap();
    assert_eq!(db.get_metadata("LAST_SYNC").unwrap().value, "2025-01-01");
    db.set_metadata("LAST_SYNC", "2025-02-02".to_string()).unwrap();
    db.set_metadata("LAST_SYNC", "2025-02-02".to_string()).unwrap();
    assert_eq!(db.get_metadata("LAST_SYNC").unwrap().value, "2025-02-02");
}

#[test]
fn test_reopen_initialized_store_is_a_noop() {
    let mut db = Database::new();
    db.insert_comic(make_comic(1)).unwrap();
    db.insert_chunk(make_chunk(1, 0)).unwrap();
    let reopened = db.reopen().unwrap();
    assert!(reopened.comic_exists(1).unwrap());
    assert_eq!(reopened.count_chunks(), 1);
}

#[test]
fn test_reopen_rejects_non_affirmative_marker() {
    let mut db = Database::new();
    db.set_metadata("INITIALIZED", "corrupt".to_string()).unwrap();
    assert!(matches!(
        db.reopen(),
        Err(DatabaseError::InitializationError(_))
    ));
}

#[test]
fn test_str_lt_is_code_point_lexicographic() {
    assert!(str_lt("2020-01-01T00:00:00Z", "2024-01-01T00:00:00+00:00"));
    assert!(!str_lt("2025-01-27T00:00:00Z", "2024-01-01T00:00:00+00:00"));
    assert!(str_lt("abc", "abd"));
    assert!(str_lt("ab", "abc"));
    assert!(!str_lt("abc", "abc"));
    assert!(!str_lt("abd", "abc"));
}

#[test]
fn test_batch_insert_assigns_consecutive_ids_in_order() {
    let mut db = Database::new();
    db.insert_comic(make_comic(1)).unwrap();
    let first = db.insert_chunk(make_chunk(1, 0)).unwrap();
    db.insert_chunks_batch(vec![make_chunk(1, 1), make_chunk(1, 2)]).unwrap();
    let chunks = db.get_chunks_for_comic(1).unwrap();
    assert_eq!(chunks.len(), 3);
    assert_eq!(chunks[0].id, Some(first));
    assert_eq!(chunks[1].id, Some(first + 1));
    assert_eq!(chunks[2].id, Some(first + 2));
}
