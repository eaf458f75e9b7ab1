use envelope::text::{key_less, normalize_key, substr};
use envelope::{EnvelopeDb, EnvelopeError, Environments, Truncate};

fn pairs(db: &EnvelopeDb, env: &str) -> Vec<(String, String)> {
    db.list_var_in_env(env)
        .into_iter()
        .map(|r| (r.key, r.value))
        .collect()
}

#[test]
fn update_then_soft_delete() {
    let mut db = EnvelopeDb::new();
    db.insert("dev", "db_url", "a", 1);
    db.insert("dev", "db_url", "b", 2);
    assert_eq!(pairs(&db, "dev"), vec![("DB_URL".to_string(), "b".to_string())]);

    db.delete_var_for_env("dev", "DB_URL", 3);
    assert!(db.list_var_in_env("dev").is_empty());
    let history = db.get_all_history("dev");
    assert_eq!(history.len(), 1);
    assert_eq!(history[0].key, "DB_URL");
    assert_eq!(history[0].value, None);
}

#[test]
fn duplicate_then_drop_source() {
    let mut db = EnvelopeDb::new();
    db.insert("dev", "A", "1", 1);
    db.duplicate("dev", "stage", 2);
    assert_eq!(pairs(&db, "stage"), vec![("A".to_string(), "1".to_string())]);
    db.drop_env("dev");
    assert_eq!(pairs(&db, "stage"), vec![("A".to_string(), "1".to_string())]);
    assert!(db.list_var_in_env("dev").is_empty());
}

#[test]
fn key_is_normalized() {
    let mut db = EnvelopeDb::new();
    db.insert("env", "api_key", "x", 1);
    assert_eq!(pairs(&db, "env"), vec![("API_KEY".to_string(), "x".to_string())]);
    assert_eq!(normalize_key("mIxEd_9é"), "MIXED_9é");
}

#[test]
fn soft_delete_twice_appends_nothing() {
    let mut db = EnvelopeDb::new();
    db.insert("dev", "k", "v", 1);
    db.delete_var_for_env("dev", "k", 2);
    let after_first = db.records().len();
    db.delete_var_for_env("dev", "k", 3);
    assert_eq!(db.records().len(), after_first);
    assert!(db.list_var_in_env("dev").is_empty());
}

#[test]
fn soft_delete_of_unset_key_is_noop() {
    let mut db = EnvelopeDb::new();
    db.insert("dev", "k", "v", 1);
    db.delete_var_for_env("dev", "other", 2);
    assert_eq!(db.records().len(), 1);
}

#[test]
fn last_append_wins() {
    let mut db = EnvelopeDb::new();
    for (i, v) in ["1", "2", "3", "4"].iter().enumerate() {
        db.insert("dev", "K", v, i as i64);
    }
    assert_eq!(pairs(&db, "dev"), vec![("K".to_string(), "4".to_string())]);
}

#[test]
fn equal_stamps_favor_the_later_append() {
    let mut db = EnvelopeDb::new();
    db.insert("dev", "K", "old", 5);
    db.insert("dev", "K", "new", 5);
    db.insert("dev", "K", "newest", 1);
    assert_eq!(pairs(&db, "dev"), vec![("K".to_string(), "newest".to_string())]);
    let rows = db.list_var_in_env("dev");
    assert_eq!(rows[0].created_at, 5);
}

#[test]
fn tombstone_shows_in_history_only() {
    let mut db = EnvelopeDb::new();
    db.insert("dev", "A", "1", 1);
    db.insert("dev", "B", "2", 2);
    db.delete_var_for_env("dev", "A", 3);
    assert_eq!(pairs(&db, "dev"), vec![("B".to_string(), "2".to_string())]);
    let history = db.get_all_history("dev");
    assert_eq!(history.len(), 2);
    assert_eq!(history[0].key, "B");
    assert_eq!(history[0].value, Some("2".to_string()));
    assert_eq!(history[1].key, "A");
    assert_eq!(history[1].value, None);
}

#[test]
fn drop_env_erases_everything() {
    let mut db = EnvelopeDb::new();
    db.insert("dev", "A", "1", 1);
    db.insert("dev", "B", "2", 2);
    db.insert("prod", "A", "9", 3);
    db.drop_env("dev");
    let envs: Vec<String> = db.list_environments().into_iter().map(|e| e.env).collect();
    assert_eq!(envs, vec!["prod".to_string()]);
    assert!(db.list_var_in_env("dev").is_empty());
    db.insert("dev", "C", "3", 4);
    assert_eq!(pairs(&db, "dev"), vec![("C".to_string(), "3".to_string())]);
    assert_eq!(db.check_env_exists("dev"), Ok(()));
}

#[test]
fn duplicate_copies_live_keys_only() {
    let mut db = EnvelopeDb::new();
    db.insert("dev", "A", "1", 1);
    db.insert("dev", "B", "2", 2);
    db.insert("dev", "C", "3", 3);
    db.delete_var_for_env("dev", "B", 4);
    db.insert("stage", "A", "old", 5);
    db.insert("stage", "Z", "z", 6);
    db.duplicate("dev", "stage", 10);
    assert_eq!(
        pairs(&db, "stage"),
        vec![
            ("Z".to_string(), "z".to_string()),
            ("C".to_string(), "3".to_string()),
            ("A".to_string(), "1".to_string()),
        ]
    );
    for row in db.list_var_in_env("stage") {
        if row.key != "Z" {
            assert!(row.created_at >= 10);
        }
    }
}

#[test]
fn duplicate_of_empty_env_creates_nothing() {
    let mut db = EnvelopeDb::new();
    db.insert("dev", "A", "1", 1);
    db.delete_env("dev", 2);
    db.duplicate("dev", "stage", 3);
    assert_eq!(
        db.check_env_exists("stage"),
        Err(EnvelopeError::EnvironmentNotFound("stage".to_string()))
    );
}

#[test]
fn delete_env_tombstones_every_live_key() {
    let mut db = EnvelopeDb::new();
    db.insert("dev", "A", "1", 1);
    db.insert("dev", "B", "2", 2);
    db.insert("prod", "A", "3", 3);
    db.delete_env("dev", 4);
    assert!(db.list_var_in_env("dev").is_empty());
    assert_eq!(db.records().len(), 5);
    assert_eq!(pairs(&db, "prod"), vec![("A".to_string(), "3".to_string())]);
    let envs: Vec<String> = db.list_environments().into_iter().map(|e| e.env).collect();
    assert_eq!(envs, vec!["dev".to_string(), "prod".to_string()]);
    assert_eq!(db.check_env_exists("dev"), Ok(()));
}

#[test]
fn delete_var_all_spans_environments() {
    let mut db = EnvelopeDb::new();
    db.insert("dev", "A", "1", 1);
    db.insert("prod", "A", "2", 2);
    db.insert("prod", "B", "3", 3);
    db.insert("qa", "A", "4", 4);
    db.delete_var_for_env("qa", "A", 5);
    db.delete_var_all("a", 6);
    assert_eq!(db.records().len(), 7);
    assert!(db.list_var_in_env("dev").is_empty());
    assert_eq!(pairs(&db, "prod"), vec![("B".to_string(), "3".to_string())]);
}

#[test]
fn listing_is_sorted_by_key_descending() {
    let mut db = EnvelopeDb::new();
    for k in ["b", "a", "c", "ab"] {
        db.insert("dev", k, "v", 1);
    }
    let keys: Vec<String> = db.list_var_in_env("dev").into_iter().map(|r| r.key).collect();
    assert_eq!(keys, vec!["C", "B", "AB", "A"]);
}

#[test]
fn truncated_listing() {
    let mut db = EnvelopeDb::new();
    db.insert("dev", "S", "secretvalue", 1);
    let rows = db.list_all_var_in_env("dev", Truncate::Range(1, 3));
    assert_eq!(rows[0].value, "sec");
    let rows = db.list_all_var_in_env("dev", Truncate::Range(7, 100));
    assert_eq!(rows[0].value, "value");
    let rows = db.list_all_var_in_env("dev", Truncate::Full);
    assert_eq!(rows[0].value, "secretvalue");
    assert_eq!(pairs(&db, "dev"), vec![("S".to_string(), "secretvalue".to_string())]);
}

#[test]
fn substr_window_edges() {
    let v = "héllo".to_string();
    assert_eq!(substr(&v, 0, 2), "h");
    assert_eq!(substr(&v, 0, 0), "");
    assert_eq!(substr(&v, 2, 2), "él");
    assert_eq!(substr(&v, 9, 2), "");
    assert_eq!(substr(&v, 5, 4_000_000_000), "o");
}

#[test]
fn check_env_exists_reports_missing() {
    let mut db = EnvelopeDb::new();
    assert_eq!(
        db.check_env_exists("dev"),
        Err(EnvelopeError::EnvironmentNotFound("dev".to_string()))
    );
    db.insert("dev", "A", "1", 1);
    assert_eq!(db.check_env_exists("dev"), Ok(()));
    assert!(db.check_env_exists("Dev").is_err());
}

#[test]
fn all_env_vars_keep_latest_per_pair() {
    let mut db = EnvelopeDb::new();
    db.insert("dev", "A", "1", 1);
    db.insert("prod", "A", "2", 2);
    db.insert("dev", "A", "3", 3);
    db.delete_var_for_env("prod", "A", 4);
    let all = db.get_all_env_vars();
    assert_eq!(all.len(), 2);
    assert_eq!((all[0].env.as_str(), all[0].value.as_deref()), ("dev", Some("3")));
    assert_eq!((all[1].env.as_str(), all[1].value.as_deref()), ("prod", None));
}

#[test]
fn stamps_never_decrease() {
    let mut db = EnvelopeDb::new();
    db.append("e".to_string(), "K".to_string(), Some("v".to_string()), 10);
    db.append("e".to_string(), "K".to_string(), None, 3);
    assert_eq!(db.records()[1].created_at, 10);
    assert_eq!(db.next_stamp(20), 20);
    assert_eq!(db.next_stamp(5), 10);
}

#[test]
fn key_order_is_by_code_point() {
    assert!(key_less(&"A".to_string(), &"B".to_string()));
    assert!(key_less(&"A".to_string(), &"AB".to_string()));
    assert!(!key_less(&"B".to_string(), &"AB".to_string()));
    assert!(!key_less(&"A".to_string(), &"A".to_string()));
    assert!(key_less(&"Z".to_string(), &"a".to_string()));
}

#[test]
fn column_names() {
    assert_eq!(Environments::Table.as_str(), "environments");
    assert_eq!(Environments::Env.as_str(), "env");
    assert_eq!(Environments::Key.as_str(), "key");
    assert_eq!(Environments::Value.as_str(), "value");
    assert_eq!(Environments::CreatedAt.as_str(), "created_at");
}
