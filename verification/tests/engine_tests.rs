use inkfox::engine::MetadataIndex;
use inkfox::query::FlexibleQuery;
use inkfox::query::StrictQuery;
use inkfox::record::Record;

fn rec(id: &str, owner: &str, kind: &str, created_at: u64) -> Record {
    Record {
        id: id.to_string(),
        owner: owner.to_string(),
        kind: kind.to_string(),
        subjects: Vec::new(),
        objects: Vec::new(),
        keywords: Vec::new(),
        tags: Vec::new(),
        importance: 2,
        confidence: 2,
        created_at,
        access_count: 0,
        chat_id: None,
        content_preview: None,
    }
}

fn strs(v: &[&str]) -> Vec<String> {
    v.iter().map(|s| s.to_string()).collect()
}

fn flex() -> FlexibleQuery {
    FlexibleQuery {
        owner: None,
        kinds: None,
        subjects: None,
        created_after: None,
        created_before: None,
        limit: None,
    }
}

fn strict() -> StrictQuery {
    StrictQuery {
        owner: None,
        kinds: None,
        subjects: None,
        keywords: None,
        tags: None,
        importance_min: None,
        importance_max: None,
        created_after: None,
        created_before: None,
        limit: None,
    }
}

fn dist_count(stats: &inkfox::engine::Stats, key: &str) -> Option<usize> {
    stats
        .types_dist
        .iter()
        .find(|(k, _)| k == key)
        .map(|(_, c)| *c)
}

#[test]
fn idempotent_reinsertion() {
    let mut e = MetadataIndex::new();
    let mut r = rec("a", "u", "note", 10);
    r.subjects = strs(&["Topic"]);
    r.tags = strs(&["T1"]);
    assert!(e.add_or_replace(r));
    let mut r2 = rec("a", "u", "note", 10);
    r2.subjects = strs(&["Topic"]);
    r2.tags = strs(&["T1"]);
    assert!(e.add_or_replace(r2));
    let s = e.stats();
    assert_eq!(s.total, 1);
    assert_eq!(s.types_indexed, 1);
    assert_eq!(s.subjects_indexed, 1);
    assert_eq!(s.tags_indexed, 1);
    assert_eq!(dist_count(&s, "note"), Some(1));
}

#[test]
fn replace_consistency() {
    let mut e = MetadataIndex::new();
    assert!(e.add_or_replace(rec("x", "u", "foo", 1)));
    assert!(e.add_or_replace(rec("x", "u", "bar", 2)));
    let s = e.stats();
    assert_eq!(s.total, 1);
    assert_eq!(dist_count(&s, "foo"), None);
    assert_eq!(dist_count(&s, "bar"), Some(1));
    let got = e.get(&"x".to_string()).expect("x must be stored");
    assert_eq!(got.kind, "bar");
    assert_eq!(got.created_at, 2);
}

#[test]
fn malformed_record_skipped() {
    let mut e = MetadataIndex::new();
    let batch = vec![rec("", "", "", 0), rec("a", "u", "", 0)];
    let count = e.batch_add(batch);
    assert_eq!(count, 1);
    assert_eq!(e.len(), 1);
    assert!(e.get(&"a".to_string()).is_some());
    assert!(e.get(&"".to_string()).is_none());
}

#[test]
fn flexible_threshold_excludes_weak_match() {
    let mut e = MetadataIndex::new();
    e.add_or_replace(rec("a", "u", "notes", 10));
    let q = FlexibleQuery {
        kinds: Some(strs(&["note"])),
        ..flex()
    };
    // A kind substring match alone contributes 0.5, far below the 2.0 floor.
    assert!(e.search_flexible(&q).is_empty());
}

#[test]
fn flexible_exact_kind_and_time_bonus_reaches_floor() {
    let mut e = MetadataIndex::new();
    e.add_or_replace(rec("a", "u", "note", 10));
    let q = FlexibleQuery {
        kinds: Some(strs(&["note"])),
        created_after: Some(5),
        ..flex()
    };
    // Exact kind (1.0) plus the time bonus (1.0) reaches the floor exactly.
    assert_eq!(e.search_flexible(&q), vec!["a".to_string()]);
}

#[test]
fn flexible_ranking_ties_break_by_recency() {
    let mut e = MetadataIndex::new();
    e.add_or_replace(rec("old", "u", "note", 100));
    e.add_or_replace(rec("new", "u", "note", 200));
    let q = FlexibleQuery {
        kinds: Some(strs(&["note"])),
        created_after: Some(0),
        ..flex()
    };
    assert_eq!(
        e.search_flexible(&q),
        vec!["new".to_string(), "old".to_string()]
    );
}

#[test]
fn flexible_ranking_higher_score_first() {
    let mut e = MetadataIndex::new();
    let mut with_objects = rec("rich", "u", "note", 100);
    with_objects.subjects = strs(&["data"]);
    with_objects.objects = strs(&["database"]);
    let mut plain = rec("plain", "u", "note", 200);
    plain.subjects = strs(&["data"]);
    e.add_or_replace(with_objects);
    e.add_or_replace(plain);
    let q = FlexibleQuery {
        subjects: Some(strs(&["data"])),
        created_after: Some(0),
        ..flex()
    };
    // "rich" scores 1.0 (subject) + 0.8 (object relation) + 1.0 (time bonus);
    // "plain" scores 2.0 despite being newer.
    assert_eq!(
        e.search_flexible(&q),
        vec!["rich".to_string(), "plain".to_string()]
    );
}

#[test]
fn flexible_owner_filter_is_exact() {
    let mut e = MetadataIndex::new();
    e.add_or_replace(rec("a", "alice", "note", 10));
    e.add_or_replace(rec("b", "bob", "note", 10));
    let q = FlexibleQuery {
        owner: Some("alice".to_string()),
        kinds: Some(strs(&["note"])),
        created_after: Some(0),
        ..flex()
    };
    assert_eq!(e.search_flexible(&q), vec!["a".to_string()]);
}

#[test]
fn flexible_subject_matching_is_case_insensitive() {
    let mut e = MetadataIndex::new();
    let mut r = rec("a", "u", "", 10);
    r.subjects = strs(&["ALPHA"]);
    e.add_or_replace(r);
    let q = FlexibleQuery {
        subjects: Some(strs(&["alpha"])),
        created_after: Some(0),
        ..flex()
    };
    // Exact case-insensitive subject match (1.0) plus time bonus (1.0).
    assert_eq!(e.search_flexible(&q), vec!["a".to_string()]);
}

#[test]
fn time_bounds_are_inclusive_in_both_modes() {
    let mut e = MetadataIndex::new();
    e.add_or_replace(rec("a", "u", "note", 50));
    let qf = FlexibleQuery {
        kinds: Some(strs(&["note"])),
        created_after: Some(50),
        created_before: Some(50),
        ..flex()
    };
    assert_eq!(e.search_flexible(&qf), vec!["a".to_string()]);
    let qs = StrictQuery {
        created_after: Some(50),
        created_before: Some(50),
        ..strict()
    };
    assert_eq!(e.search_strict(&qs), vec!["a".to_string()]);
}

#[test]
fn strict_and_semantics() {
    let mut e = MetadataIndex::new();
    let mut r = rec("a", "u", "x", 10);
    r.tags = strs(&["t2"]);
    e.add_or_replace(r);
    let q = StrictQuery {
        kinds: Some(strs(&["x"])),
        tags: Some(strs(&["t1"])),
        ..strict()
    };
    // The kind filter matches but the tag filter does not: excluded.
    assert!(e.search_strict(&q).is_empty());
    let q2 = StrictQuery {
        kinds: Some(strs(&["x"])),
        tags: Some(strs(&["t2"])),
        ..strict()
    };
    assert_eq!(e.search_strict(&q2), vec!["a".to_string()]);
}

#[test]
fn strict_subject_substring_matches() {
    let mut e = MetadataIndex::new();
    let mut r = rec("a", "u", "", 10);
    r.subjects = strs(&["alphabet"]);
    e.add_or_replace(r);
    let q = StrictQuery {
        subjects: Some(strs(&["alpha"])),
        ..strict()
    };
    // "alpha" is not equal to "alphabet": only substring containment admits it.
    assert_eq!(e.search_strict(&q), vec!["a".to_string()]);
    let q2 = StrictQuery {
        subjects: Some(strs(&["omega"])),
        ..strict()
    };
    assert!(e.search_strict(&q2).is_empty());
}

#[test]
fn strict_keywords_fuzzy_and_case_insensitive() {
    let mut e = MetadataIndex::new();
    let mut r = rec("a", "u", "", 10);
    r.keywords = strs(&["Rust"]);
    e.add_or_replace(r);
    let q = StrictQuery {
        keywords: Some(strs(&["rust"])),
        ..strict()
    };
    assert_eq!(e.search_strict(&q), vec!["a".to_string()]);
}

#[test]
fn strict_tags_are_case_sensitive() {
    let mut e = MetadataIndex::new();
    let mut r = rec("a", "u", "", 10);
    r.tags = strs(&["Tag"]);
    e.add_or_replace(r);
    let q = StrictQuery {
        tags: Some(strs(&["tag"])),
        ..strict()
    };
    assert!(e.search_strict(&q).is_empty());
    let q2 = StrictQuery {
        tags: Some(strs(&["Tag"])),
        ..strict()
    };
    assert_eq!(e.search_strict(&q2), vec!["a".to_string()]);
}

#[test]
fn strict_importance_bounds_inclusive() {
    let mut e = MetadataIndex::new();
    let mut r = rec("a", "u", "", 10);
    r.importance = 3;
    e.add_or_replace(r);
    let q = StrictQuery {
        importance_min: Some(3),
        importance_max: Some(3),
        ..strict()
    };
    assert_eq!(e.search_strict(&q), vec!["a".to_string()]);
    let q2 = StrictQuery {
        importance_min: Some(4),
        ..strict()
    };
    assert!(e.search_strict(&q2).is_empty());
    let q3 = StrictQuery {
        importance_max: Some(2),
        ..strict()
    };
    assert!(e.search_strict(&q3).is_empty());
}

#[test]
fn strict_orders_by_recency() {
    let mut e = MetadataIndex::new();
    e.add_or_replace(rec("old", "u", "x", 1));
    e.add_or_replace(rec("mid", "u", "x", 2));
    e.add_or_replace(rec("new", "u", "x", 3));
    let q = strict();
    assert_eq!(
        e.search_strict(&q),
        vec!["new".to_string(), "mid".to_string(), "old".to_string()]
    );
}

#[test]
fn limit_truncates_to_top_ranked() {
    let mut e = MetadataIndex::new();
    e.add_or_replace(rec("old", "u", "note", 100));
    e.add_or_replace(rec("new", "u", "note", 200));
    let qf = FlexibleQuery {
        kinds: Some(strs(&["note"])),
        created_after: Some(0),
        limit: Some(1),
        ..flex()
    };
    assert_eq!(e.search_flexible(&qf), vec!["new".to_string()]);
    let qs = StrictQuery {
        limit: Some(1),
        ..strict()
    };
    assert_eq!(e.search_strict(&qs), vec!["new".to_string()]);
}

#[test]
fn snapshot_replay_round_trip() {
    let mut e = MetadataIndex::new();
    let mut r1 = rec("a", "u1", "note", 10);
    r1.subjects = strs(&["One"]);
    r1.keywords = strs(&["k1", "k2"]);
    r1.tags = strs(&["t"]);
    r1.chat_id = Some("chat".to_string());
    r1.content_preview = Some("preview".to_string());
    r1.importance = 4;
    r1.confidence = 1;
    r1.access_count = 7;
    let mut r2 = rec("b", "u2", "task", 20);
    r2.objects = strs(&["obj"]);
    e.add_or_replace(r1);
    e.add_or_replace(r2);
    let snap = e.snapshot();
    let e2 = MetadataIndex::from_records(snap);
    let s1 = e.stats();
    let s2 = e2.stats();
    assert_eq!(s1.total, s2.total);
    assert_eq!(s1.types_indexed, s2.types_indexed);
    assert_eq!(s1.subjects_indexed, s2.subjects_indexed);
    assert_eq!(s1.keywords_indexed, s2.keywords_indexed);
    assert_eq!(s1.tags_indexed, s2.tags_indexed);
    for id in ["a", "b"] {
        let x = e.get(&id.to_string()).expect("stored in the original");
        let y = e2.get(&id.to_string()).expect("stored in the replay");
        assert_eq!(x.id, y.id);
        assert_eq!(x.owner, y.owner);
        assert_eq!(x.kind, y.kind);
        assert_eq!(x.subjects, y.subjects);
        assert_eq!(x.objects, y.objects);
        assert_eq!(x.keywords, y.keywords);
        assert_eq!(x.tags, y.tags);
        assert_eq!(x.importance, y.importance);
        assert_eq!(x.confidence, y.confidence);
        assert_eq!(x.created_at, y.created_at);
        assert_eq!(x.access_count, y.access_count);
        assert_eq!(x.chat_id, y.chat_id);
        assert_eq!(x.content_preview, y.content_preview);
    }
}

#[test]
fn empty_terms_are_never_indexed() {
    let mut e = MetadataIndex::new();
    let mut r = rec("a", "u", "", 10);
    r.subjects = strs(&[""]);
    r.keywords = strs(&[""]);
    r.tags = strs(&[""]);
    e.add_or_replace(r);
    let s = e.stats();
    assert_eq!(s.total, 1);
    assert_eq!(s.types_indexed, 0);
    assert_eq!(s.subjects_indexed, 0);
    assert_eq!(s.keywords_indexed, 0);
    assert_eq!(s.tags_indexed, 0);
}

#[test]
fn duplicate_ids_in_one_batch_count_each_but_store_once() {
    let mut e = MetadataIndex::new();
    let batch = vec![rec("a", "u", "first", 1), rec("a", "u", "second", 2)];
    assert_eq!(e.batch_add(batch), 2);
    assert_eq!(e.len(), 1);
    assert_eq!(e.get(&"a".to_string()).expect("stored").kind, "second");
}

#[test]
fn empty_engine_returns_empty_results() {
    let e = MetadataIndex::new();
    assert!(e.search_flexible(&flex()).is_empty());
    assert!(e.search_strict(&strict()).is_empty());
    let s = e.stats();
    assert_eq!(s.total, 0);
    assert!(s.types_dist.is_empty());
}

#[test]
fn index_terms_dedup_case_insensitively() {
    let mut e = MetadataIndex::new();
    let mut r = rec("a", "u", "", 10);
    r.subjects = strs(&["Rust", "rust", "RUST"]);
    e.add_or_replace(r);
    let s = e.stats();
    // All three subjects lowercase to one indexed term.
    assert_eq!(s.subjects_indexed, 1);
}

#[test]
fn limit_larger_than_matches_returns_all() {
    let mut e = MetadataIndex::new();
    e.add_or_replace(rec("a", "u", "x", 1));
    e.add_or_replace(rec("b", "u", "x", 2));
    let q = StrictQuery {
        limit: Some(50),
        ..strict()
    };
    assert_eq!(e.search_strict(&q).len(), 2);
}
