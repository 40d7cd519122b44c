use vectordb::db::Database;
use vectordb::error::Error;

fn strings(names: &[&str]) -> Vec<String> {
    names.iter().map(|n| n.to_string()).collect()
}

fn color_keys() -> Vec<Vec<i16>> {
    vec![vec![100, 120, 45], vec![100, 110, 105], vec![100, 205, 150]]
}

#[test]
fn create_collection() {
    let mut db: Database = Database::new();
    let result = db.create_collection("test".to_string(), 3);
    assert!(result.is_ok())
}

#[test]
fn create_duplicate_collection() {
    let mut db: Database = Database::new();
    let _ = db.create_collection("test".to_string(), 3);
    let result = db.create_collection("test".to_string(), 3);
    let expected = Err(Error::UniqueViolation);
    assert_eq!(result, expected);
}

#[test]
fn delete_existing_collection() {
    let mut db: Database = Database::new();
    let _ = db.create_collection("test".to_string(), 3);

    assert_eq!(db.delete_collection("test"), Ok(()))
}

#[test]
fn delete_non_existing_collection() {
    let mut db: Database = Database::new();

    assert_eq!(db.delete_collection("test"), Err(Error::NotFound))
}

#[test]
fn build_index() {
    let mut db: Database = Database::new();
    let _ = db.create_collection("test".to_string(), 3);
    let keys = color_keys();
    let values = strings(&["red", "green", "blue"]);
    let _ = db.insert_into_collection("test", keys, values, "test_file_name".to_string());
    let result = db.build_index("test");
    assert_eq!(result, Ok(()));
}

#[test]
fn append_and_build_index() {
    let mut db: Database = Database::new();
    let _ = db.create_collection("test".to_string(), 3);

    let keys = color_keys();
    let values = strings(&["red", "green", "blue"]);
    let _ = db.insert_into_collection("test", keys, values, "test_file_name".to_string());
    let _ = db.build_index("test");

    let keys: Vec<Vec<i16>> = vec![vec![200, 205, 150]];
    let values = strings(&["black"]);
    let _ = db.insert_into_collection("test", keys, values, "test_file_name".to_string());
    let result = db.build_index("test");
    assert_eq!(result, Ok(()));
}

#[test]
fn delete_collection_with_embeddings() {
    let mut db: Database = Database::new();
    let _ = db.create_collection("test".to_string(), 3);
    let keys = color_keys();
    let values = strings(&["red", "green", "blue"]);
    let _ = db.insert_into_collection("test", keys, values, "test_file_name".to_string());
    let _ = db.build_index("test");
    assert_eq!(db.delete_collection("test"), Ok(()));
}

#[test]
fn insert_into_collection_dimensions_mismatch_keys_values() {
    let mut db: Database = Database::new();

    let _ = db.create_collection("test".to_string(), 3);

    let keys = color_keys();
    let values = strings(&["red", "green"]);
    let result = db.insert_into_collection("test", keys, values, "test_file_name".to_string());

    assert_eq!(result, Err(Error::DimensionMismatch));
}

// A single over-long vector in an otherwise well-shaped batch is skipped
// silently and the call succeeds (the documented lenient-skip policy).
#[test]
fn insert_into_collection_dimensions_mismatch_keys() {
    let mut db: Database = Database::new();

    let _ = db.create_collection("test".to_string(), 3);

    let keys: Vec<Vec<i16>> = vec![
        vec![100, 120, 45],
        vec![100, 110, 105],
        vec![100, 205, 150, 102],
    ];
    let values = strings(&["red", "green", "blue"]);
    let result = db.insert_into_collection("test", keys, values, "test_file_name".to_string());

    assert_eq!(result, Ok(()));
    assert_eq!(db.collections[0].1.embeddings.len(), 2);
}

// A batch whose vectors all have the wrong length succeeds with zero
// effective insertions (the documented lenient-skip policy).
#[test]
fn insert_into_collection_dimensions_mismatch() {
    let mut db: Database = Database::new();

    let _ = db.create_collection("test".to_string(), 4);

    let keys = color_keys();
    let values = strings(&["red", "green", "blue"]);
    let result = db.insert_into_collection("test", keys, values, "test_file_name".to_string());

    assert_eq!(result, Ok(()));
    assert_eq!(db.collections[0].1.embeddings.len(), 0);
}

#[test]
fn insert_into_non_existing_collection() {
    let mut db: Database = Database::new();

    let keys = color_keys();
    let values = strings(&["red", "green", "blue"]);

    let result = db.insert_into_collection("test", keys, values, "test_file_name".to_string());

    assert_eq!(result, Err(Error::NotFound));
}

#[test]
fn query() {
    let mut db = Database::new();
    let _ = db.create_collection("test".to_string(), 3);
    let keys = color_keys();
    let values = strings(&["red", "green", "blue"]);
    let _ = db.insert_into_collection("test", keys, values, "test_file_name".to_string());

    let _ = db.build_index("test");

    let query_vec: Vec<i16> = vec![100, 125, 45];
    let result = db.query("test", query_vec, 1);
    assert_eq!(result, Ok(vec![(999794, "red".to_string())]));
    // The integer score is the cosine in millionths.
    let score = 999794 as f64 / 1_000_000.0;
    assert!((score - 0.9997943).abs() < 1e-5);
}

#[test]
fn query_with_append() {
    let mut db = Database::new();
    let _ = db.create_collection("test".to_string(), 3);
    let keys = color_keys();
    let values = strings(&["red", "green", "blue"]);
    let _ = db.insert_into_collection("test", keys, values, "test_file_name".to_string());

    let _ = db.build_index("test");

    let keys: Vec<Vec<i16>> = vec![vec![100, 120, 165], vec![100, 300, 405]];
    let values = strings(&["yellow", "happy"]);
    let _ = db.insert_into_collection("test", keys, values, "test_file_name".to_string());

    let _ = db.build_index("test");

    let query_vec: Vec<i16> = vec![100, 305, 355];
    let result = db.query("test", query_vec, 1);
    assert_eq!(result, Ok(vec![(997391, "happy".to_string())]));
    let score = 997391 as f64 / 1_000_000.0;
    assert!((score - 0.9973914).abs() < 1e-5);
}

#[test]
fn query_on_absent_collection_reports_not_found() {
    let mut db = Database::new();
    let result = db.query("test", vec![100, 125, 45], 1);
    assert_eq!(result, Err("Collection doesn't exist".to_string()));
}

#[test]
fn query_with_wrong_dimension_is_malformed() {
    let mut db = Database::new();
    let _ = db.create_collection("test".to_string(), 3);
    let result = db.query("test", vec![100, 125], 1);
    assert_eq!(result, Err("query malformed".to_string()));
}

#[test]
fn build_index_on_absent_collection_reports_not_found() {
    let mut db = Database::new();
    let result = db.build_index("test");
    assert_eq!(result, Err("Collection doesn't exist".to_string()));
}

#[test]
fn get_all_collections_lists_names_in_creation_order() {
    let mut db = Database::new();
    let _ = db.create_collection("alpha".to_string(), 3);
    let _ = db.create_collection("beta".to_string(), 3);
    assert_eq!(db.get_all_collections(), strings(&["alpha", "beta"]));
    let _ = db.delete_collection("alpha");
    assert_eq!(db.get_all_collections(), strings(&["beta"]));
}

#[test]
fn get_docs_registers_each_tag_once() {
    let mut db = Database::new();
    let _ = db.create_collection("test".to_string(), 3);
    let _ = db.insert_into_collection(
        "test",
        vec![vec![1, 2, 3]],
        strings(&["a"]),
        "file1".to_string(),
    );
    let _ = db.insert_into_collection(
        "test",
        vec![vec![4, 5, 6]],
        strings(&["b"]),
        "file1".to_string(),
    );
    let _ = db.insert_into_collection(
        "test",
        vec![vec![7, 8, 9]],
        strings(&["c"]),
        "file2".to_string(),
    );
    assert_eq!(db.get_docs("test"), Ok(strings(&["file1", "file2"])));
    assert_eq!(db.get_docs("missing"), Err(Error::NotFound));
}

#[test]
fn create_index_sets_up_a_searchable_collection() {
    let mut db = Database::new();
    let result = db.create_index(
        "colors".to_string(),
        3,
        strings(&["red", "green", "blue"]),
        color_keys(),
        "file1".to_string(),
    );
    assert_eq!(result, Ok(()));
    let hits = db.query("colors", vec![100, 125, 45], 1).unwrap();
    assert_eq!(hits[0].1, "red".to_string());
}
