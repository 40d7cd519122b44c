// The persistence codec: lossless round trips and rejection of malformed
// buffers.

use vectordb::codec::deserialize;
use vectordb::codec::frame_state;
use vectordb::codec::serialize;
use vectordb::codec::unframe_state;
use vectordb::db::Database;
use vectordb::embedding::Embedding;
use vectordb::similarity::Distance;

fn strings(names: &[&str]) -> Vec<String> {
    names.iter().map(|n| n.to_string()).collect()
}

fn populated_db() -> Database {
    let mut db = Database::new();
    let _ = db.create_collection("colors".to_string(), 3);
    let _ = db.insert_into_collection(
        "colors",
        vec![vec![100, 120, 45], vec![100, 110, 105]],
        strings(&["red", "green"]),
        "file1".to_string(),
    );
    let _ = db.build_index("colors");
    let _ = db.insert_into_collection(
        "colors",
        vec![vec![100, 205, 150]],
        strings(&["blue"]),
        "file2".to_string(),
    );
    let _ = db.create_collection_with("docs".to_string(), 2, Distance::Euclidean, true);
    let _ = db.insert_embedding(
        "docs",
        Embedding::new(
            "doc-1".to_string(),
            vec![3, 4],
            Some(vec![("lang".to_string(), "en".to_string())]),
        ),
    );
    let _ = db.add_content("doc-1".to_string(), "hello world".to_string());
    db
}

fn assert_databases_equal(a: &Database, b: &Database) {
    assert_eq!(a.collections.len(), b.collections.len());
    for (pa, pb) in a.collections.iter().zip(b.collections.iter()) {
        assert_eq!(pa.0, pb.0);
        let (ca, cb) = (&pa.1, &pb.1);
        assert_eq!(ca.dimension, cb.dimension);
        assert_eq!(ca.distance, cb.distance);
        assert_eq!(ca.unique_ids, cb.unique_ids);
        assert_eq!(ca.indexed, cb.indexed);
        assert_eq!(ca.metadata.file_names, cb.metadata.file_names);
        assert_eq!(ca.embeddings.len(), cb.embeddings.len());
        for (ea, eb) in ca.embeddings.iter().zip(cb.embeddings.iter()) {
            assert_eq!(ea.id, eb.id);
            assert_eq!(ea.vector, eb.vector);
            assert_eq!(ea.metadata, eb.metadata);
        }
    }
    assert_eq!(a.content, b.content);
}

#[test]
fn round_trip_restores_every_field() {
    let db = populated_db();
    let bytes = serialize(&db);
    let restored = deserialize(&bytes).expect("a serialized registry must deserialize");
    assert_databases_equal(&db, &restored);
}

#[test]
fn round_trip_preserves_query_answers_and_staleness() {
    let mut db = populated_db();
    let bytes = serialize(&db);
    let mut restored = deserialize(&bytes).unwrap();
    // The index snapshot is persisted: "blue" was appended after the last
    // rebuild and must stay invisible in the restored registry too.
    let before = db.query("colors", vec![100, 205, 150], 3);
    let after = restored.query("colors", vec![100, 205, 150], 3);
    assert_eq!(before, after);
    assert_eq!(after.as_ref().unwrap().len(), 2);
}

#[test]
fn empty_registry_round_trips() {
    let db = Database::new();
    let bytes = serialize(&db);
    let restored = deserialize(&bytes).expect("an empty registry must deserialize");
    assert_eq!(restored.collections.len(), 0);
    assert_eq!(restored.content.len(), 0);
}

#[test]
fn garbage_bytes_are_rejected() {
    assert!(deserialize(&vec![1, 2, 3]).is_none());
}

#[test]
fn trailing_bytes_are_rejected() {
    let db = populated_db();
    let mut bytes = serialize(&db);
    bytes.push(0);
    assert!(deserialize(&bytes).is_none());
}

#[test]
fn framed_state_round_trips() {
    let db = populated_db();
    let blob = serialize(&db);
    let framed = frame_state(blob.clone());
    assert_eq!(framed.len(), blob.len() + 4);
    let unframed = unframe_state(&framed).expect("a framed blob must unframe");
    assert_eq!(unframed, blob);
    let restored = deserialize(&unframed).unwrap();
    assert_databases_equal(&db, &restored);
}

#[test]
fn truncated_frame_is_rejected() {
    assert!(unframe_state(&vec![9, 0]).is_none());
    // A length field pointing past the buffer's end is refused too.
    assert!(unframe_state(&vec![200, 0, 0, 0, 1]).is_none());
}
