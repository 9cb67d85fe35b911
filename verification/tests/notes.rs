use bonsai::error::StoreError;
use bonsai::notes::{Config, Database, Leaf, Sage};
use bonsai::text::name_matches;

fn entry(name: &str, description: &str) -> Sage {
    Sage {
        name: name.to_string(),
        description: description.to_string(),
        created_at: "t0".to_string(),
        modified_at: "t0".to_string(),
    }
}

#[test]
fn create_sage_then_read_back() {
    let mut db = Database::new();
    db.create_sage_at("ficus", "a patient tree", "t0".to_string())
        .unwrap();
    let s = db.read_sage("ficus").unwrap();
    assert_eq!(s.name, "ficus");
    assert_eq!(s.description, "a patient tree");
    assert_eq!(s.created_at, "t0");
    assert_eq!(s.modified_at, "t0");
}

#[test]
fn create_sage_stamps_the_moment() {
    let mut db = Database::new();
    db.create_sage("ficus", "a patient tree").unwrap();
    let s = db.read_sage("ficus").unwrap();
    assert!(!s.created_at.is_empty());
    assert_eq!(s.created_at, s.modified_at);
}

#[test]
fn create_sage_refuses_duplicate_name() {
    let mut db = Database::new();
    db.create_sage_at("ficus", "first", "t0".to_string()).unwrap();
    let err = db
        .create_sage_at("ficus", "second", "t1".to_string())
        .unwrap_err();
    assert_eq!(err, StoreError::Conflict);
    assert_eq!(db.read_sage("ficus").unwrap().description, "first");
}

#[test]
fn read_sage_absent_is_none() {
    let db = Database::new();
    assert!(db.read_sage("nobody").is_none());
}

#[test]
fn list_sages_returns_all_in_order() {
    let db = Database::with_sages(vec![entry("a", "1"), entry("b", "2")]);
    let all = db.list_sages();
    assert_eq!(all.len(), 2);
    assert_eq!(all[0].name, "a");
    assert_eq!(all[1].name, "b");
}

#[test]
fn delete_sage_removes_and_then_errs() {
    let mut db = Database::with_sages(vec![entry("a", "1"), entry("b", "2")]);
    db.delete_sage("a").unwrap();
    assert!(db.read_sage("a").is_none());
    assert_eq!(db.list_sages().len(), 1);
    let err = db.delete_sage("a").unwrap_err();
    assert_eq!(err, StoreError::NotFound);
}

#[test]
fn update_sage_rewrites_description_and_moment() {
    let mut db = Database::with_sages(vec![entry("a", "old")]);
    db.update_sage_at("a", "new", "t9".to_string()).unwrap();
    let s = db.read_sage("a").unwrap();
    assert_eq!(s.description, "new");
    assert_eq!(s.modified_at, "t9");
    assert_eq!(s.created_at, "t0");
}

#[test]
fn update_sage_absent_is_not_found() {
    let mut db = Database::new();
    let err = db.update_sage("nobody", "text").unwrap_err();
    assert_eq!(err, StoreError::NotFound);
}

#[test]
fn search_sages_is_case_insensitive_substring() {
    let db = Database::with_sages(vec![
        entry("Garden Oak", "1"),
        entry("bonsai", "2"),
        entry("OAKLAND", "3"),
    ]);
    let found = db.search_sages("oak");
    assert_eq!(found.len(), 2);
    assert_eq!(found[0].name, "Garden Oak");
    assert_eq!(found[1].name, "OAKLAND");
    assert!(db.search_sages("maple").is_empty());
}

#[test]
fn search_sages_empty_query_matches_all() {
    let db = Database::with_sages(vec![entry("a", "1"), entry("b", "2")]);
    assert_eq!(db.search_sages("").len(), 2);
}

#[test]
fn name_matching_folds_case() {
    assert!(name_matches("My Notes.TXT", "notes"));
    assert!(name_matches("ABC", "b"));
    assert!(!name_matches("abc", "x"));
    assert!(name_matches("anything", ""));
}

#[test]
fn default_config_is_dark_and_keyless() {
    let c = Config::default();
    assert_eq!(c.theme, "dark");
    assert!(c.openai_api_key.is_empty());
}

#[test]
fn leaf_carries_its_fields() {
    let l = Leaf {
        name: "note.md".to_string(),
        content: "hello".to_string(),
        created_at: "t0".to_string(),
        modified_at: "t1".to_string(),
    };
    assert_eq!(l.name, "note.md");
    assert_eq!(l.content, "hello");
    assert_eq!(l.created_at, "t0");
    assert_eq!(l.modified_at, "t1");
}

#[test]
fn delete_sage_removes_every_entry_with_the_name() {
    let mut db = Database::with_sages(vec![entry("twin", "1"), entry("solo", "2"), entry("twin", "3")]);
    db.delete_sage("twin").unwrap();
    let left = db.list_sages();
    assert_eq!(left.len(), 1);
    assert_eq!(left[0].name, "solo");
}

#[test]
fn read_and_update_take_the_first_match() {
    let mut db = Database::with_sages(vec![entry("twin", "first"), entry("twin", "second")]);
    assert_eq!(db.read_sage("twin").unwrap().description, "first");
    db.update_sage_at("twin", "rewritten", "t9".to_string()).unwrap();
    let all = db.list_sages();
    assert_eq!(all[0].description, "rewritten");
    assert_eq!(all[1].description, "second");
}
