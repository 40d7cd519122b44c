// The id-oriented face of the registry: collections created in id-unique
// mode, single-record inserts, and the content store.

use vectordb::db::Database;
use vectordb::embedding::Embedding;
use vectordb::error::Error;
use vectordb::similarity::Distance;

#[test]
fn db_create_collection() {
    let mut db: Database = Database::new();
    let result = db.create_collection_with("test".to_string(), 10, Distance::Cosine, true);
    assert!(result.is_ok())
}

#[test]
fn get_collection() {
    let mut db: Database = Database::new();
    let _ = db.create_collection_with("test".to_string(), 10, Distance::Cosine, true);
    let result = db.get_collection("test");
    assert!(result.is_some())
}

#[test]
fn db_create_duplicate_collection() {
    let mut db: Database = Database::new();
    let _ = db.create_collection_with("test".to_string(), 10, Distance::Cosine, true);
    let result = db.create_collection_with("test".to_string(), 10, Distance::Cosine, true);
    let expected = Err(Error::UniqueViolation);
    assert_eq!(result, expected);
}

#[test]
fn db_delete_existing_collection() {
    let mut db: Database = Database::new();
    let _ = db.create_collection_with("test".to_string(), 10, Distance::Cosine, true);

    assert_eq!(db.delete_collection("test"), Ok(()))
}

#[test]
fn db_delete_non_existing_collection() {
    let mut db: Database = Database::new();

    assert_eq!(db.delete_collection("test"), Err(Error::NotFound))
}

#[test]
fn db_delete_collection_with_embeddings() {
    let mut db: Database = Database::new();
    let _ = db.create_collection_with("test".to_string(), 10, Distance::Cosine, true);
    let embedding = Embedding {
        id: "test-id".to_string(),
        vector: vec![5, 13, 9, 50],
        metadata: Some(Vec::new()),
    };
    let _ = db.insert_embedding("test", embedding);

    assert_eq!(db.delete_collection("test"), Ok(()));
    assert!(db.content.is_empty());
}

#[test]
fn insert_into_collection() {
    let mut db: Database = Database::new();
    let _ = db.create_collection_with("test".to_string(), 4, Distance::Cosine, true);
    let embedding = Embedding {
        id: "test-id".to_string(),
        vector: vec![5, 13, 9, 50],
        metadata: Some(Vec::new()),
    };
    let result = db.insert_embedding("test", embedding);
    assert_eq!(result.unwrap(), ());
}

#[test]
fn db_insert_into_collection_dimensions_mismatch() {
    let mut db: Database = Database::new();
    let _ = db.create_collection_with("test".to_string(), 4, Distance::Cosine, true);
    let embedding = Embedding {
        id: "test-id".to_string(),
        vector: vec![5, 13, 9],
        metadata: Some(Vec::new()),
    };
    let result = db.insert_embedding("test", embedding);
    assert_eq!(result, Err(Error::DimensionMismatch));
}

#[test]
fn db_insert_into_non_existing_collection() {
    let mut db: Database = Database::new();
    let embedding = Embedding {
        id: "test-id".to_string(),
        vector: vec![5, 13, 9],
        metadata: Some(Vec::new()),
    };
    let result = db.insert_embedding("test", embedding);
    assert_eq!(result, Err(Error::NotFound));
}

#[test]
fn insert_duplicate_id_in_unique_mode_is_refused() {
    let mut db: Database = Database::new();
    let _ = db.create_collection_with("test".to_string(), 3, Distance::Cosine, true);
    let first = Embedding::new("test-id".to_string(), vec![1, 2, 3], None);
    let second = Embedding::new("test-id".to_string(), vec![4, 5, 6], None);
    assert_eq!(db.insert_embedding("test", first), Ok(()));
    assert_eq!(db.insert_embedding("test", second), Err(Error::UniqueViolation));

    // The batch insert refuses colliding ids the same way, atomically.
    let result = db.insert_into_collection(
        "test",
        vec![vec![7, 8, 9], vec![10, 11, 12]],
        vec!["fresh".to_string(), "test-id".to_string()],
        "file1".to_string(),
    );
    assert_eq!(result, Err(Error::UniqueViolation));
    assert_eq!(db.collections[0].1.embeddings.len(), 1);
}

#[test]
fn duplicate_labels_are_fine_outside_unique_mode() {
    let mut db: Database = Database::new();
    let _ = db.create_collection("test".to_string(), 3);
    let result = db.insert_into_collection(
        "test",
        vec![vec![1, 2, 3], vec![4, 5, 6]],
        vec!["same".to_string(), "same".to_string()],
        "file1".to_string(),
    );
    assert_eq!(result, Ok(()));
    assert_eq!(db.collections[0].1.embeddings.len(), 2);
}

#[test]
fn add_content_to_db() {
    let mut db: Database = Database::new();
    let result = db.add_content("content-id".to_string(), "Some content".to_string());
    assert_eq!(result.unwrap(), ());
}

#[test]
fn add_duplicate_content_to_db() {
    let mut db: Database = Database::new();
    let _ = db.add_content("content-id".to_string(), "Some content".to_string());
    let result = db.add_content("content-id".to_string(), "Duplicate content".to_string());
    assert_eq!(result, Err(Error::UniqueViolation));
}

#[test]
fn remove_existing_content_from_db() {
    let mut db: Database = Database::new();
    let _ = db.add_content("content-id".to_string(), "Some content".to_string());
    let result = db.remove_content("content-id");
    assert_eq!(result, Ok(()));
}

#[test]
fn remove_non_existing_content_from_db() {
    let mut db: Database = Database::new();
    let result = db.remove_content("non-existing-content-id");
    assert_eq!(result, Err(Error::NotFound));
}

#[test]
fn deleting_a_collection_drops_its_records_content() {
    let mut db: Database = Database::new();
    let _ = db.create_collection_with("test".to_string(), 3, Distance::Cosine, true);
    let _ = db.insert_embedding(
        "test",
        Embedding::new("doc-1".to_string(), vec![1, 2, 3], None),
    );
    let _ = db.add_content("doc-1".to_string(), "hello world".to_string());
    let _ = db.add_content("doc-2".to_string(), "unrelated".to_string());

    assert_eq!(db.delete_collection("test"), Ok(()));
    assert_eq!(db.get_content("doc-1"), None);
    assert_eq!(db.get_content("doc-2"), Some("unrelated".to_string()));
}
