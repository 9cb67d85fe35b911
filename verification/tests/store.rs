use bonsai::entity::{Entity, EntityKind, Leaf, Sage};
use bonsai::error::StoreError;
use bonsai::store::{SqlDatabase, UpdatePolicy};

fn leaf(id: &str, name: &str, content: &str) -> Entity {
    Entity::Leaf(Leaf {
        id: id.to_string(),
        name: name.to_string(),
        content: content.to_string(),
        created_at: String::new(),
        modified_at: String::new(),
    })
}

fn sage(id: &str, name: &str, description: &str) -> Entity {
    Entity::Sage(Sage {
        id: id.to_string(),
        name: name.to_string(),
        description: description.to_string(),
        created_at: String::new(),
        modified_at: String::new(),
    })
}

fn new_store() -> SqlDatabase {
    SqlDatabase::new(3, UpdatePolicy::SkipEmpty)
}

#[test]
fn create_then_read_returns_the_record() {
    let mut db = new_store();
    let id = db
        .create_at(leaf("n1", "driver", "how are you"), "t0".to_string())
        .unwrap();
    assert_eq!(id, "n1");
    let e = db.read(EntityKind::Leaf, &"n1".to_string()).unwrap();
    match e {
        Entity::Leaf(l) => {
            assert_eq!(l.id, "n1");
            assert_eq!(l.name, "driver");
            assert_eq!(l.content, "how are you");
            assert_eq!(l.created_at, "t0");
            assert_eq!(l.modified_at, "t0");
        }
        _ => panic!("wrong kind"),
    }
}

#[test]
fn create_assigns_both_timestamps() {
    let mut db = new_store();
    db.create(leaf("n1", "a", "b")).unwrap();
    let e = db.read(EntityKind::Leaf, &"n1".to_string()).unwrap();
    match e {
        Entity::Leaf(l) => {
            assert!(!l.created_at.is_empty());
            assert_eq!(l.created_at, l.modified_at);
        }
        _ => panic!("wrong kind"),
    }
}

#[test]
fn create_duplicate_id_conflicts() {
    let mut db = new_store();
    db.create_at(leaf("n1", "a", "b"), "t0".to_string()).unwrap();
    let err = db
        .create_at(leaf("n1", "c", "d"), "t1".to_string())
        .unwrap_err();
    assert_eq!(err, StoreError::Conflict);
    // the original row is untouched
    match db.read(EntityKind::Leaf, &"n1".to_string()).unwrap() {
        Entity::Leaf(l) => assert_eq!(l.name, "a"),
        _ => panic!("wrong kind"),
    }
}

#[test]
fn same_id_under_other_kind_is_no_conflict() {
    let mut db = new_store();
    db.create_at(leaf("x", "a", "b"), "t0".to_string()).unwrap();
    db.create_at(sage("x", "c", "d"), "t0".to_string()).unwrap();
    assert!(db.read(EntityKind::Leaf, &"x".to_string()).is_some());
    assert!(db.read(EntityKind::Sage, &"x".to_string()).is_some());
}

#[test]
fn read_absent_is_none_not_error() {
    let db = new_store();
    assert!(db.read(EntityKind::Leaf, &"nope".to_string()).is_none());
}

#[test]
fn list_returns_only_the_kind() {
    let mut db = new_store();
    db.create_at(leaf("n1", "a", "b"), "t0".to_string()).unwrap();
    db.create_at(sage("s1", "c", "d"), "t0".to_string()).unwrap();
    db.create_at(leaf("n2", "e", "f"), "t0".to_string()).unwrap();
    let leaves = db.list(EntityKind::Leaf);
    assert_eq!(leaves.len(), 2);
    let sages = db.list(EntityKind::Sage);
    assert_eq!(sages.len(), 1);
}

#[test]
fn update_skips_empty_fields_under_skip_policy() {
    let mut db = new_store();
    db.create_at(leaf("n1", "old name", "old content"), "t0".to_string())
        .unwrap();
    db.update_at(&leaf("n1", "", "new content"), "t1".to_string())
        .unwrap();
    match db.read(EntityKind::Leaf, &"n1".to_string()).unwrap() {
        Entity::Leaf(l) => {
            assert_eq!(l.name, "old name");
            assert_eq!(l.content, "new content");
            assert_eq!(l.created_at, "t0");
            assert_eq!(l.modified_at, "t1");
        }
        _ => panic!("wrong kind"),
    }
}

#[test]
fn update_clears_empty_fields_under_clear_policy() {
    let mut db = SqlDatabase::new(3, UpdatePolicy::ClearEmpty);
    db.create_at(leaf("n1", "old name", "old content"), "t0".to_string())
        .unwrap();
    db.update_at(&leaf("n1", "", "new content"), "t1".to_string())
        .unwrap();
    match db.read(EntityKind::Leaf, &"n1".to_string()).unwrap() {
        Entity::Leaf(l) => {
            assert_eq!(l.name, "");
            assert_eq!(l.content, "new content");
            // the incoming blank creation moment clears the stored one too
            assert_eq!(l.created_at, "");
            assert_eq!(l.modified_at, "t1");
        }
        _ => panic!("wrong kind"),
    }
}

#[test]
fn update_of_absent_id_is_a_quiet_no_op() {
    let mut db = new_store();
    db.update_at(&leaf("ghostly", "a", "b"), "t0".to_string())
        .unwrap();
    assert!(db.read(EntityKind::Leaf, &"ghostly".to_string()).is_none());
}

#[test]
fn store_embedding_rejects_wrong_dimension_without_partial_write() {
    let mut db = new_store();
    db.create_at(leaf("n1", "a", "b"), "t0".to_string()).unwrap();
    let err = db
        .store_embedding(&"n1".to_string(), EntityKind::Leaf, &vec![1, 2])
        .unwrap_err();
    assert_eq!(err, StoreError::DimensionMismatch);
    // the metadata mapping gained no orphan row: nothing is searchable
    let hits = db.find_similar(&vec![1, 2, 3], 10).unwrap();
    assert!(hits.is_empty());
}

#[test]
fn store_embedding_replaces_not_accumulates() {
    let mut db = new_store();
    db.create_at(leaf("n1", "a", "b"), "t0".to_string()).unwrap();
    db.store_embedding(&"n1".to_string(), EntityKind::Leaf, &vec![1, 2, 3])
        .unwrap();
    db.store_embedding(&"n1".to_string(), EntityKind::Leaf, &vec![4, 5, 6])
        .unwrap();
    let hits = db.find_similar(&vec![4, 5, 6], 10).unwrap();
    // one record per owner, at the new vector
    assert_eq!(hits.len(), 1);
    assert_eq!(hits[0].object_id, "n1");
    assert_eq!(hits[0].distance, 0);
}

#[test]
fn self_similarity_is_top_result() {
    let mut db = new_store();
    db.create_at(leaf("n1", "driver", "how are you"), "t0".to_string())
        .unwrap();
    db.create_at(leaf("n2", "sun", "it is out there"), "t0".to_string())
        .unwrap();
    db.store_embedding(&"n1".to_string(), EntityKind::Leaf, &vec![10, 0, 0])
        .unwrap();
    db.store_embedding(&"n2".to_string(), EntityKind::Leaf, &vec![0, 50, 7])
        .unwrap();
    let top = db
        .find_similar_entities(EntityKind::Leaf, &vec![10, 0, 0], 1)
        .unwrap();
    assert_eq!(top.len(), 1);
    match &top[0] {
        Entity::Leaf(l) => assert_eq!(l.id, "n1"),
        _ => panic!("wrong kind"),
    }
}

#[test]
fn nearest_note_wins() {
    // two notes; the query vector sits nearer the first one's embedding
    let mut db = new_store();
    db.create_at(leaf("driver-note", "driver", "how are you"), "t0".to_string())
        .unwrap();
    db.create_at(leaf("sun-note", "sun", "it is out there"), "t0".to_string())
        .unwrap();
    db.store_embedding(&"driver-note".to_string(), EntityKind::Leaf, &vec![10, 2, 3])
        .unwrap();
    db.store_embedding(&"sun-note".to_string(), EntityKind::Leaf, &vec![90, 80, 70])
        .unwrap();
    // "driving well", as the provider would embed it: close to the driver note
    let query: Vec<u32> = vec![11, 2, 4];
    let top = db.find_similar_entities(EntityKind::Leaf, &query, 1).unwrap();
    assert_eq!(top.len(), 1);
    match &top[0] {
        Entity::Leaf(l) => assert_eq!(l.name, "driver"),
        _ => panic!("wrong kind"),
    }
}

#[test]
fn deleted_note_never_comes_back() {
    let mut db = new_store();
    db.create_at(leaf("n1", "gone", "soon"), "t0".to_string()).unwrap();
    db.store_embedding(&"n1".to_string(), EntityKind::Leaf, &vec![1, 2, 3])
        .unwrap();
    db.delete(EntityKind::Leaf, &"n1".to_string());
    let hits = db
        .find_similar_entities(EntityKind::Leaf, &vec![1, 2, 3], 5)
        .unwrap();
    assert!(hits.iter().all(|e| match e {
        Entity::Leaf(l) => l.id != "n1",
        Entity::Sage(s) => s.id != "n1",
    }));
    assert!(hits.is_empty());
    assert!(db.read(EntityKind::Leaf, &"n1".to_string()).is_none());
}

#[test]
fn delete_twice_is_not_an_error() {
    let mut db = new_store();
    db.create_at(leaf("n1", "a", "b"), "t0".to_string()).unwrap();
    db.delete(EntityKind::Leaf, &"n1".to_string());
    db.delete(EntityKind::Leaf, &"n1".to_string());
    assert!(db.read(EntityKind::Leaf, &"n1".to_string()).is_none());
}

#[test]
fn updated_content_outranks_stale_query() {
    let mut db = new_store();
    db.create_at(leaf("n1", "note", "old words"), "t0".to_string())
        .unwrap();
    db.store_embedding(&"n1".to_string(), EntityKind::Leaf, &vec![5, 5, 5])
        .unwrap();
    // the content changes; its embedding is recomputed and replaced
    db.update_at(&leaf("n1", "note", "new words"), "t1".to_string())
        .unwrap();
    db.store_embedding(&"n1".to_string(), EntityKind::Leaf, &vec![40, 40, 40])
        .unwrap();
    let fresh = db.find_similar(&vec![40, 40, 40], 1).unwrap();
    let stale = db.find_similar(&vec![5, 5, 5], 1).unwrap();
    assert_eq!(fresh[0].object_id, "n1");
    assert_eq!(stale[0].object_id, "n1");
    // the new content's query matches the single stored slot strictly better
    assert!(fresh[0].distance < stale[0].distance);
    assert_eq!(fresh[0].slot, stale[0].slot);
}

#[test]
fn find_similar_orders_by_distance_then_slot() {
    let mut db = new_store();
    for (id, v) in [("a", [0u32, 0, 9]), ("b", [0, 0, 1]), ("c", [0, 0, 9])] {
        db.create_at(leaf(id, id, id), "t0".to_string()).unwrap();
        db.store_embedding(&id.to_string(), EntityKind::Leaf, &v.to_vec())
            .unwrap();
    }
    let hits = db.find_similar(&vec![0, 0, 0], 10).unwrap();
    assert_eq!(hits.len(), 3);
    assert_eq!(hits[0].object_id, "b");
    // "a" and "c" tie on distance; "a" sits in the earlier slot
    assert_eq!(hits[1].object_id, "a");
    assert_eq!(hits[2].object_id, "c");
    assert!(hits[0].distance <= hits[1].distance);
    assert!(hits[1].distance <= hits[2].distance);
}

#[test]
fn find_similar_limit_zero_is_empty_not_error() {
    let mut db = new_store();
    db.create_at(leaf("n1", "a", "b"), "t0".to_string()).unwrap();
    db.store_embedding(&"n1".to_string(), EntityKind::Leaf, &vec![1, 2, 3])
        .unwrap();
    assert!(db.find_similar(&vec![1, 2, 3], 0).unwrap().is_empty());
}

#[test]
fn find_similar_rejects_wrong_query_dimension() {
    let db = new_store();
    let err = db.find_similar(&vec![1, 2], 5).unwrap_err();
    assert_eq!(err, StoreError::DimensionMismatch);
}

#[test]
fn find_similar_entities_filters_kind_and_skips_stale() {
    let mut db = new_store();
    db.create_at(leaf("n1", "a", "b"), "t0".to_string()).unwrap();
    db.store_embedding(&"n1".to_string(), EntityKind::Leaf, &vec![1, 1, 1])
        .unwrap();
    db.create_at(sage("s1", "c", "d"), "t0".to_string()).unwrap();
    db.store_embedding(&"s1".to_string(), EntityKind::Sage, &vec![1, 1, 2])
        .unwrap();
    // a mapping whose entity row is gone: a stale candidate, skipped
    db.store_embedding(&"phantom".to_string(), EntityKind::Leaf, &vec![1, 1, 1])
        .unwrap();
    let leaves = db
        .find_similar_entities(EntityKind::Leaf, &vec![1, 1, 1], 10)
        .unwrap();
    assert_eq!(leaves.len(), 1);
    match &leaves[0] {
        Entity::Leaf(l) => assert_eq!(l.id, "n1"),
        _ => panic!("wrong kind"),
    }
}

#[test]
fn create_with_embedding_keeps_entity_on_provider_failure() {
    let mut db = new_store();
    let err = db
        .create_with_embedding(leaf("n1", "a", "b"), "t0".to_string(), None)
        .unwrap_err();
    assert_eq!(err, StoreError::Provider);
    // entity saved, embedding stale: readable by key, invisible to search
    assert!(db.read(EntityKind::Leaf, &"n1".to_string()).is_some());
    assert!(db.find_similar(&vec![1, 2, 3], 5).unwrap().is_empty());
}

#[test]
fn create_with_embedding_stores_both() {
    let mut db = new_store();
    let id = db
        .create_with_embedding(leaf("n1", "a", "b"), "t0".to_string(), Some(vec![7, 8, 9]))
        .unwrap();
    assert_eq!(id, "n1");
    let hits = db.find_similar(&vec![7, 8, 9], 1).unwrap();
    assert_eq!(hits[0].object_id, "n1");
    assert_eq!(hits[0].distance, 0);
}

#[test]
fn update_with_embedding_replaces_the_record() {
    let mut db = new_store();
    db.create_with_embedding(leaf("n1", "a", "old"), "t0".to_string(), Some(vec![1, 1, 1]))
        .unwrap();
    db.update_with_embedding(&leaf("n1", "a", "new"), "t1".to_string(), Some(vec![9, 9, 9]))
        .unwrap();
    match db.read(EntityKind::Leaf, &"n1".to_string()).unwrap() {
        Entity::Leaf(l) => assert_eq!(l.content, "new"),
        _ => panic!("wrong kind"),
    }
    let hits = db.find_similar(&vec![9, 9, 9], 10).unwrap();
    assert_eq!(hits.len(), 1);
    assert_eq!(hits[0].distance, 0);
}

#[test]
fn entity_embedding_text_joins_name_and_body() {
    let e = leaf("n1", "driver", "how are you");
    assert_eq!(e.get_embedding_text(), "driver\nhow are you");
    let s = sage("s1", "sun", "it is out there");
    assert_eq!(s.get_embedding_text(), "sun\nit is out there");
}

#[test]
fn fresh_entities_get_36_char_identifiers() {
    let l = Leaf::new("a".to_string(), "b".to_string());
    assert_eq!(l.id.chars().count(), 36);
    let s = Sage::new("c".to_string(), "d".to_string());
    assert_eq!(s.id.chars().count(), 36);
    assert_ne!(l.id, s.id);
}

#[test]
fn embedder_args_hold_their_fields() {
    let args = bonsai::embedder::EmbeddingArgs::new(
        true,
        "sentence-transformers/all-MiniLM-L6-v2".to_string(),
        "refs/pr/21".to_string(),
        false,
        true,
        true,
    );
    assert!(args.cpu);
    assert_eq!(args.model_id, "sentence-transformers/all-MiniLM-L6-v2");
    assert_eq!(args.revision, "refs/pr/21");
    assert!(!args.use_pth);
    assert!(args.normalize_embeddings);
    assert!(args.approximate_gelu);
}

#[test]
fn create_with_embedding_keeps_entity_on_dimension_mismatch() {
    let mut db = new_store();
    let err = db
        .create_with_embedding(leaf("n1", "a", "b"), "t0".to_string(), Some(vec![1, 2]))
        .unwrap_err();
    assert_eq!(err, StoreError::DimensionMismatch);
    assert!(db.read(EntityKind::Leaf, &"n1".to_string()).is_some());
    assert!(db.find_similar(&vec![1, 2, 3], 5).unwrap().is_empty());
}

#[test]
fn ranking_mixes_kinds_but_entities_do_not() {
    let mut db = new_store();
    db.create_with_embedding(leaf("n1", "a", "b"), "t0".to_string(), Some(vec![1, 1, 1]))
        .unwrap();
    db.create_with_embedding(sage("s1", "c", "d"), "t0".to_string(), Some(vec![1, 1, 1]))
        .unwrap();
    let hits = db.find_similar(&vec![1, 1, 1], 10).unwrap();
    assert_eq!(hits.len(), 2);
    let sages = db
        .find_similar_entities(EntityKind::Sage, &vec![1, 1, 1], 10)
        .unwrap();
    assert_eq!(sages.len(), 1);
    match &sages[0] {
        Entity::Sage(s) => assert_eq!(s.id, "s1"),
        _ => panic!("wrong kind"),
    }
}

#[test]
fn update_sage_entity_refreshes_modified_at_only() {
    let mut db = new_store();
    db.create_at(sage("s1", "topic", "old"), "t0".to_string()).unwrap();
    db.update_at(&sage("s1", "topic", "new"), "t5".to_string())
        .unwrap();
    match db.read(EntityKind::Sage, &"s1".to_string()).unwrap() {
        Entity::Sage(s) => {
            assert_eq!(s.description, "new");
            assert_eq!(s.created_at, "t0");
            assert_eq!(s.modified_at, "t5");
        }
        _ => panic!("wrong kind"),
    }
}

#[test]
fn delete_of_one_kind_spares_the_other() {
    let mut db = new_store();
    db.create_with_embedding(leaf("x", "a", "b"), "t0".to_string(), Some(vec![1, 1, 1]))
        .unwrap();
    db.create_with_embedding(sage("x", "c", "d"), "t0".to_string(), Some(vec![2, 2, 2]))
        .unwrap();
    db.delete(EntityKind::Leaf, &"x".to_string());
    assert!(db.read(EntityKind::Leaf, &"x".to_string()).is_none());
    assert!(db.read(EntityKind::Sage, &"x".to_string()).is_some());
    let hits = db.find_similar(&vec![2, 2, 2], 10).unwrap();
    assert_eq!(hits.len(), 1);
    assert_eq!(hits[0].object_kind, EntityKind::Sage);
}
