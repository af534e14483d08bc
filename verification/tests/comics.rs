use db::{Comics, Database, DatabaseError};

fn setup() -> Database {
    Database::new()
}

fn make_comic(number: u64) -> Comics {
    Comics {
        comic_number: number,
        title: format!("Comic {}", number),
        url: format!("https://explainxkcd.com/{}", number),
        xkcd_url: format!("https://xkcd.com/{}", number),
        hover_text: Some(format!("Hover text {}", number)),
        last_revision_id: 12345,
        last_revision_timestamp: "20250127000000".to_string(),
        scraped_at: "2025-01-27T00:00:00Z".to_string(),
        updated_at: "2025-01-27T00:00:00Z".to_string(),
    }
}

#[test]
fn test_insert_comic() {
    let mut db = setup();
    let comic = make_comic(1);
    let result = db.insert_comic(comic.clone());
    assert!(result.is_ok());
}

#[test]
fn test_insert_duplicate_comic_fails() {
    let mut db = setup();
    let comic = make_comic(1);
    db.insert_comic(comic.clone()).unwrap();
    let result = db.insert_comic(comic);
    assert!(result.is_err());
}

#[test]
fn test_get_comic_exists() {
    let mut db = setup();
    let comic = make_comic(42);
    db.insert_comic(comic.clone()).unwrap();
    let result = db.get_comic_by_number(42).unwrap();
    assert!(result.is_some());
    assert_eq!(result.unwrap().comic_number, 42);
}

#[test]
fn test_get_comic_not_found() {
    let db = setup();
    let result = db.get_comic_by_number(999).unwrap();
    assert!(result.is_none());
}

#[test]
fn test_comic_exists() {
    let mut db = setup();
    db.insert_comic(make_comic(100)).unwrap();
    assert!(db.comic_exists(100).unwrap());
    assert!(!db.comic_exists(101).unwrap());
}

#[test]
fn test_update_comic() {
    let mut db = setup();
    db.insert_comic(make_comic(50)).unwrap();
    let result = db.update_comic(
        50,
        99999,
        "20250128000000".to_string(),
        "2025-01-28T00:00:00Z".to_string(),
    );
    assert!(result.is_ok());
    let updated = db.get_comic_by_number(50).unwrap().unwrap();
    assert_eq!(updated.last_revision_id, 99999);
}

#[test]
fn test_update_nonexistent_comic_fails() {
    let mut db = setup();
    let result = db.update_comic(
        999,
        12345,
        "20250127000000".to_string(),
        "2025-01-27T00:00:00Z".to_string(),
    );
    assert!(result.is_err());
}

#[test]
fn test_delete_comic() {
    let mut db = setup();
    db.insert_comic(make_comic(10)).unwrap();
    assert!(db.comic_exists(10).unwrap());
    db.delete_comic(10).unwrap();
    assert!(!db.comic_exists(10).unwrap());
}

#[test]
fn test_delete_nonexistent_comic_fails() {
    let mut db = setup();
    let result = db.delete_comic(999);
    assert!(result.is_err());
}

#[test]
fn test_get_max_comic_number_empty_db() {
    let db = setup();
    assert!(
        db.get_max_comic_number()
            .is_err_and(|e| matches!(e, DatabaseError::NoComicsFound))
    );
}

#[test]
fn test_get_max_comic_number() {
    let mut db = setup();
    db.insert_comic(make_comic(5)).unwrap();
    db.insert_comic(make_comic(100)).unwrap();
    db.insert_comic(make_comic(42)).unwrap();
    assert_eq!(db.get_max_comic_number().unwrap(), 100);
}

#[test]
fn test_get_comics_needing_update() {
    let mut db = setup();
    let mut old = make_comic(1);
    old.updated_at = "2020-01-01T00:00:00Z".to_string();
    db.insert_comic(old).unwrap();
    db.insert_comic(make_comic(2)).unwrap();
    // The cutoff as an engine-bound text parameter: the RFC 3339 rendering
    // of 2024-01-01T00:00:00Z.
    let old_comics = db.get_comics_needing_update("2024-01-01T00:00:00+00:00").unwrap();
    assert_eq!(old_comics.len(), 1);
    assert_eq!(old_comics[0].comic_number, 1);
}

#[test]
fn test_get_comics_batch() {
    let mut db = setup();
    for i in 1..=5 {
        db.insert_comic(make_comic(i)).unwrap();
    }
    let batch = db.get_comics_batch([2, 4, 1].to_vec()).unwrap();
    assert_eq!(batch.len(), 3);
}

#[test]
fn test_get_comics_batch_empty() {
    let db = setup();
    assert_eq!(db.get_comics_batch(Vec::new()).unwrap().len(), 0);
}

#[test]
fn test_get_comics_batch_some_missing() {
    let mut db = setup();
    db.insert_comic(make_comic(1)).unwrap();
    db.insert_comic(make_comic(3)).unwrap();
    let batch = db.get_comics_batch([1, 2, 3].to_vec()).unwrap();
    assert_eq!(batch.len(), 2);
}
