// Scoring, the bounded top-k selector, and the two query strategies.

use vectordb::db::Database;
use vectordb::error::Error;
use vectordb::index::Vector;
use vectordb::similarity::top_k;
use vectordb::similarity::Distance;

fn strings(names: &[&str]) -> Vec<String> {
    names.iter().map(|n| n.to_string()).collect()
}

fn colors_built() -> Database {
    let mut db = Database::new();
    let _ = db.create_collection("colors".to_string(), 3);
    let _ = db.insert_into_collection(
        "colors",
        vec![vec![100, 120, 45], vec![100, 110, 105], vec![100, 205, 150]],
        strings(&["red", "green", "blue"]),
        "file1".to_string(),
    );
    let _ = db.build_index("colors");
    db
}

#[test]
fn top_k_returns_min_k_results_sorted_best_first() {
    let scores: Vec<i64> = vec![5, 1, 3, 3, 9];
    let three = top_k(&scores, 3, true);
    assert_eq!(three.len(), 3);
    assert_eq!((three[0].score, three[0].index), (1, 1));
    assert_eq!((three[1].score, three[1].index), (3, 2));
    assert_eq!((three[2].score, three[2].index), (3, 3));

    let none = top_k(&scores, 0, true);
    assert_eq!(none.len(), 0);

    let all = top_k(&scores, 10, true);
    assert_eq!(all.len(), 5);
    let picked: Vec<usize> = all.iter().map(|si| si.index).collect();
    assert_eq!(picked, vec![1, 2, 3, 0, 4]);

    let empty = top_k(&Vec::new(), 4, false);
    assert_eq!(empty.len(), 0);

    // Higher-is-better direction, ties still broken by position.
    let best = top_k(&scores, 2, false);
    assert_eq!((best[0].score, best[0].index), (9, 4));
    assert_eq!((best[1].score, best[1].index), (5, 0));
}

#[test]
fn exact_and_indexed_paths_agree_after_rebuild() {
    let db = colors_built();
    let collection = db.get_collection("colors").unwrap();
    let query: Vec<i16> = vec![100, 125, 45];
    let indexed = collection.query(&Vector::from(query.clone()), 2);
    let exact = collection.get_similarity(&query, 2);
    assert_eq!(indexed.len(), exact.len());
    for (pair, result) in indexed.iter().zip(exact.iter()) {
        assert_eq!(pair.0, result.score);
        assert_eq!(pair.1, result.embedding.id);
    }
    assert_eq!(indexed[0].1, "red".to_string());
}

#[test]
fn rebuild_twice_answers_identically() {
    let mut db = colors_built();
    let first = db.query("colors", vec![100, 305, 355], 3);
    let _ = db.build_index("colors");
    let _ = db.build_index("colors");
    let second = db.query("colors", vec![100, 305, 355], 3);
    assert_eq!(first, second);
}

#[test]
fn appended_records_stay_invisible_until_rebuild() {
    let mut db = colors_built();
    let _ = db.insert_into_collection(
        "colors",
        vec![vec![100, 300, 405]],
        strings(&["happy"]),
        "file1".to_string(),
    );
    let stale = db.query("colors", vec![100, 305, 355], 1).unwrap();
    assert_eq!(stale[0].1, "blue".to_string());
    let _ = db.build_index("colors");
    let fresh = db.query("colors", vec![100, 305, 355], 1).unwrap();
    assert_eq!(fresh[0].1, "happy".to_string());
}

#[test]
fn every_stored_vector_has_the_collection_dimension() {
    let mut db = Database::new();
    let _ = db.create_collection("test".to_string(), 3);
    let _ = db.insert_into_collection(
        "test",
        vec![vec![1, 2, 3], vec![4, 5, 6, 7], vec![8, 9], vec![10, 11, 12]],
        strings(&["a", "b", "c", "d"]),
        "file1".to_string(),
    );
    let collection = &db.collections[0].1;
    assert_eq!(collection.embeddings.len(), 2);
    for e in collection.embeddings.iter() {
        assert_eq!(e.vector.len(), collection.dimension);
    }
}

#[test]
fn cosine_score_is_exact_in_millionths() {
    let a = Vector::from(vec![100, 120, 45]);
    let b = Vector::from(vec![100, 125, 45]);
    assert_eq!(a.cos_sim(&b), 999794);
    // Cosine of a vector with itself is exactly one.
    assert_eq!(a.cos_sim(&a), 1_000_000);
    // Opposite vectors score exactly minus one.
    let neg = Vector::from(vec![-100, -120, -45]);
    assert_eq!(a.cos_sim(&neg), -1_000_000);
    // The zero vector has no direction: the documented sentinel is zero.
    let zero = Vector::from(vec![0, 0, 0]);
    assert_eq!(a.cos_sim(&zero), 0);
}

#[test]
fn vector_equality_is_component_wise() {
    let a = Vector::from(vec![1, 2, 3]);
    let b = Vector::from(vec![1, 2, 3]);
    let c = Vector::from(vec![1, 2, 4]);
    assert!(a == b);
    assert!(a != c);
}

#[test]
fn euclidean_metric_ranks_lower_scores_first() {
    let mut db = Database::new();
    let _ = db.create_collection_with("points".to_string(), 2, Distance::Euclidean, false);
    let _ = db.insert_into_collection(
        "points",
        vec![vec![10, 0], vec![13, 4], vec![0, 0]],
        strings(&["near", "mid", "far"]),
        "file1".to_string(),
    );
    let _ = db.build_index("points");
    let hits = db.query("points", vec![10, 0], 3).unwrap();
    // Scores are exact squared distances, closest first.
    assert_eq!(hits[0], (0, "near".to_string()));
    assert_eq!(hits[1], (25, "mid".to_string()));
    assert_eq!(hits[2], (100, "far".to_string()));
}

#[test]
fn dot_product_metric_ranks_higher_scores_first() {
    let mut db = Database::new();
    let _ = db.create_collection_with("points".to_string(), 2, Distance::DotProduct, false);
    let _ = db.insert_into_collection(
        "points",
        vec![vec![1, 1], vec![3, 4], vec![-2, -2]],
        strings(&["small", "big", "negative"]),
        "file1".to_string(),
    );
    let _ = db.build_index("points");
    let hits = db.query("points", vec![10, 10], 3).unwrap();
    assert_eq!(hits[0], (70, "big".to_string()));
    assert_eq!(hits[1], (20, "small".to_string()));
    assert_eq!(hits[2], (-40, "negative".to_string()));
}

#[test]
fn negative_query_limit_returns_nothing() {
    let mut db = colors_built();
    let hits = db.query("colors", vec![100, 125, 45], -2).unwrap();
    assert_eq!(hits.len(), 0);
}

#[test]
fn get_similarity_carries_record_copies() {
    let mut db = Database::new();
    let _ = db.create_collection_with("docs".to_string(), 2, Distance::Cosine, true);
    let _ = db.insert_embedding(
        "docs",
        vectordb::embedding::Embedding::new(
            "doc-1".to_string(),
            vec![3, 4],
            Some(vec![("lang".to_string(), "en".to_string())]),
        ),
    );
    let results = db.get_collection("docs").unwrap().get_similarity(&vec![3, 4], 5);
    assert_eq!(results.len(), 1);
    assert_eq!(results[0].score, 1_000_000);
    assert_eq!(results[0].embedding.id, "doc-1".to_string());
    assert_eq!(
        results[0].embedding.metadata,
        Some(vec![("lang".to_string(), "en".to_string())])
    );
}

#[test]
fn error_messages_match_the_error_kinds() {
    assert_eq!(Error::UniqueViolation.message(), "Collection already exists".to_string());
    assert_eq!(Error::NotFound.message(), "Collection doesn't exist".to_string());
    assert_eq!(
        Error::DimensionMismatch.message(),
        "The dimension of the vector doesn't match the dimension of the collection".to_string()
    );
    assert_eq!(Error::Unauthorized.message(), "User not authorized".to_string());
}
