use nr::args_history::ArgsHistory;
use nr::args_history::MAX_HISTORY_ENTRIES;
use nr::codec::decode_recents;
use nr::codec::encode_recents;
use nr::favorites::favorites_from_pairs;
use nr::favorites::FavoriteSet;
use nr::favorites::toggle_favorite;
use nr::frecency::frecency_score;
use nr::frecency::SCALE;
use nr::recents::now_ms;
use nr::recents::record_execution;
use nr::recents::score_of;
use nr::recents::RecentEntry;
use nr::sort::sort_scripts;
use nr::sort::SortableScript;

// --- recency store ---

#[test]
fn test_record_execution_creates_new_entry() {
    let mut recents = Vec::new();
    record_execution(&mut recents, "a1b2c3d4:root:dev");

    assert_eq!(recents.len(), 1);
    assert_eq!(recents[0].key, "a1b2c3d4:root:dev");
    assert_eq!(recents[0].count, 1);
    assert!(recents[0].last_run > 0);
}

#[test]
fn test_record_execution_updates_existing_entry() {
    let now = now_ms();

    let mut recents = vec![RecentEntry {
        key: "a1b2c3d4:root:dev".to_string(),
        last_run: now - 10000,
        count: 5,
    }];

    record_execution(&mut recents, "a1b2c3d4:root:dev");

    assert_eq!(recents.len(), 1);
    assert_eq!(recents[0].count, 6);
    assert!(recents[0].last_run > now - 10000);
}

#[test]
fn test_record_execution_evicts_at_limit() {
    let now = now_ms();

    // Create 100 entries
    let mut recents: Vec<RecentEntry> = (0..100)
        .map(|i| RecentEntry {
            key: format!("key_{}", i),
            last_run: now - (i as u64 * 1000),
            count: i as u32 + 1,
        })
        .collect();

    // Add one more, should evict the lowest-frecency entry
    record_execution(&mut recents, "new_key");

    assert_eq!(recents.len(), 100);
    assert!(recents.iter().any(|e| e.key == "new_key"));
}

#[test]
fn test_record_execution_evicts_lowest_scoring() {
    let now = now_ms();
    let day = 86_400_000u64;

    // 99 fresh, well-used entries and one old, rarely used one.
    let mut recents: Vec<RecentEntry> = (0..99)
        .map(|i| RecentEntry {
            key: format!("fresh_{}", i),
            last_run: now - 1000,
            count: 50,
        })
        .collect();
    recents.insert(
        40,
        RecentEntry {
            key: "stale".to_string(),
            last_run: now - 200 * day,
            count: 1,
        },
    );

    record_execution(&mut recents, "newcomer");

    assert_eq!(recents.len(), 100);
    assert!(recents.iter().any(|e| e.key == "newcomer"));
    assert!(!recents.iter().any(|e| e.key == "stale"));
}

#[test]
fn test_score_of_untracked_key_is_zero() {
    let now = now_ms();
    let recents = vec![RecentEntry {
        key: "known".to_string(),
        last_run: now,
        count: 3,
    }];
    assert!(score_of(&recents, "known", now) > 0);
    assert_eq!(score_of(&recents, "unknown", now), 0);
}

// --- frecency scorer ---

#[test]
fn test_frecency_score_higher_count_increases_score() {
    let now = now_ms();

    let score1 = frecency_score(1, now, now);
    let score10 = frecency_score(10, now, now);

    assert!(score10 > score1);
}

#[test]
fn test_frecency_score_recent_has_higher_score() {
    let now = now_ms();

    let recent = frecency_score(5, now, now);
    let old = frecency_score(5, now - (30 * 24 * 60 * 60 * 1000), now); // 30 days ago

    assert!(recent > old);
}

#[test]
fn test_frecency_score_positive() {
    let now = now_ms();

    let score = frecency_score(1, now, now);
    assert!(score > 0);
}

#[test]
fn test_frecency_score_zero_count() {
    let now = now_ms();

    // Count of 0 should still produce a positive score due to +1 in formula
    let score = frecency_score(0, now, now);
    assert!(score > 0);
}

#[test]
fn test_frecency_score_halflife_decay() {
    let now = now_ms();

    let halflife_ms = 14 * 24 * 60 * 60 * 1000;

    let score_now = frecency_score(10, now, now);
    let score_halflife = frecency_score(10, now - halflife_ms, now);

    // After one halflife, score should be approximately half
    let ratio = score_halflife as f64 / score_now as f64;
    assert!((ratio - 0.5).abs() < 0.01);
}

#[test]
fn test_frecency_score_fresh_value_is_frequency_term() {
    let now = now_ms();
    // With no elapsed time the score is log2(count + 1) + 1 in fixed point:
    // count 1 gives exactly 2.0, count 3 exactly 3.0.
    assert_eq!(frecency_score(1, now, now), 2 * SCALE);
    assert_eq!(frecency_score(3, now, now), 3 * SCALE);
}

// --- favorites ---

#[test]
fn test_toggle_favorite_adds_new() {
    let mut favorites = FavoriteSet::new();
    let added = toggle_favorite(&mut favorites, "a1b2c3d4:root:dev");

    assert!(added);
    assert!(favorites.contains("a1b2c3d4:root:dev"));
}

#[test]
fn test_toggle_favorite_removes_existing() {
    let mut favorites = FavoriteSet::new();
    toggle_favorite(&mut favorites, "a1b2c3d4:root:dev");

    let removed = toggle_favorite(&mut favorites, "a1b2c3d4:root:dev");

    assert!(!removed);
    assert!(!favorites.contains("a1b2c3d4:root:dev"));
}

#[test]
fn test_toggle_favorite_multiple_times() {
    let mut favorites = FavoriteSet::new();

    assert!(toggle_favorite(&mut favorites, "key"));
    assert!(favorites.contains("key"));

    assert!(!toggle_favorite(&mut favorites, "key"));
    assert!(!favorites.contains("key"));

    assert!(toggle_favorite(&mut favorites, "key"));
    assert!(favorites.contains("key"));
}

#[test]
fn test_favorites_from_pairs_keeps_true_only() {
    let pairs = vec![
        ("a1b2c3d4:root:dev".to_string(), true),
        ("a1b2c3d4:root:test".to_string(), false),
        ("a1b2c3d4:root:build".to_string(), true),
    ];
    let favorites = favorites_from_pairs(&pairs);
    assert!(favorites.contains("a1b2c3d4:root:dev"));
    assert!(favorites.contains("a1b2c3d4:root:build"));
    assert!(!favorites.contains("a1b2c3d4:root:test"));
    assert_eq!(favorites.len(), 2);
}

// --- args history ---

#[test]
fn test_add_entry_inserts_at_beginning() {
    let mut history = ArgsHistory::new();

    history.add_entry("first".to_string());
    history.add_entry("second".to_string());
    history.add_entry("third".to_string());

    assert_eq!(history.entries.len(), 3);
    assert_eq!(history.entries[0], "third");
    assert_eq!(history.entries[1], "second");
    assert_eq!(history.entries[2], "first");
}

#[test]
fn test_add_entry_removes_duplicates() {
    let mut history = ArgsHistory::new();

    history.add_entry("first".to_string());
    history.add_entry("second".to_string());
    history.add_entry("first".to_string()); // Duplicate

    assert_eq!(history.entries.len(), 2);
    assert_eq!(history.entries[0], "first"); // Most recent
    assert_eq!(history.entries[1], "second");
}

#[test]
fn test_add_entry_caps_at_max() {
    let mut history = ArgsHistory::new();

    for i in 0..25 {
        history.add_entry(format!("entry_{}", i));
    }

    assert_eq!(history.entries.len(), MAX_HISTORY_ENTRIES);
    assert_eq!(history.entries[0], "entry_24"); // Most recent
    assert_eq!(history.entries[19], "entry_5"); // 20th entry
}

#[test]
fn test_add_entry_skips_empty() {
    let mut history = ArgsHistory::new();

    history.add_entry("".to_string());
    history.add_entry("   ".to_string());
    history.add_entry("valid".to_string());

    assert_eq!(history.entries.len(), 1);
    assert_eq!(history.entries[0], "valid");
}

#[test]
fn test_get_entries() {
    let mut history = ArgsHistory::new();
    history.add_entry("a".to_string());
    history.add_entry("b".to_string());

    let entries = history.get_entries();
    assert_eq!(entries.len(), 2);
    assert_eq!(entries[0], "b");
    assert_eq!(entries[1], "a");
}

// --- persisted form of the store ---

#[test]
fn test_encode_recents_exact_text() {
    let recents = vec![RecentEntry {
        key: "root:dev".to_string(),
        last_run: 1000000,
        count: 5,
    }];
    let text = encode_recents(&recents);
    assert_eq!(
        text,
        "[{\"key\":\"root:dev\",\"last_run\":1000000,\"count\":5}]"
    );
}

#[test]
fn test_encode_recents_escapes_key() {
    let recents = vec![RecentEntry {
        key: "a\"b\\c".to_string(),
        last_run: 1,
        count: 1,
    }];
    let text = encode_recents(&recents);
    assert_eq!(text, "[{\"key\":\"a\\\"b\\\\c\",\"last_run\":1,\"count\":1}]");
}

#[test]
fn test_decode_recents_accepts_whitespace() {
    let text = "[\n  {\n    \"key\": \"root:dev\",\n    \"last_run\": 1000000,\n    \"count\": 5\n  }\n]";
    let decoded = decode_recents(text).unwrap();
    assert_eq!(decoded.len(), 1);
    assert_eq!(decoded[0].key, "root:dev");
    assert_eq!(decoded[0].last_run, 1000000);
    assert_eq!(decoded[0].count, 5);
}

#[test]
fn test_decode_recents_resolves_escapes() {
    let text = "[{\"key\":\"a\\u0041b\\n\\t\",\"last_run\":7,\"count\":2}]";
    let decoded = decode_recents(text).unwrap();
    assert_eq!(decoded[0].key, "aAb\n\t");
}

#[test]
fn test_control_characters_survive_the_round_trip() {
    let recents = vec![RecentEntry {
        key: "a\nb\u{1}c".to_string(),
        last_run: 3,
        count: 1,
    }];
    let text = encode_recents(&recents);
    let decoded = decode_recents(&text).unwrap();
    assert_eq!(decoded[0].key, "a\nb\u{1}c");
}

#[test]
fn test_decode_recents_rejects_corrupt_text() {
    assert!(decode_recents("not valid json").is_none());
    assert!(decode_recents("[{\"key\":\"x\"}]").is_none());
    assert!(decode_recents("[]extra").is_none());
    assert!(decode_recents("").is_none());
}

#[test]
fn test_decode_recents_empty_store() {
    let decoded = decode_recents("[]").unwrap();
    assert!(decoded.is_empty());
    let decoded2 = decode_recents(" [ ] ").unwrap();
    assert!(decoded2.is_empty());
}

#[test]
fn test_store_round_trip_preserves_records_and_ranking() {
    // Record a number of executions of one key, write the store out, read it
    // back, and check that the records and the resulting ranking survive.
    let mut recents = vec![
        RecentEntry {
            key: "root:build".to_string(),
            last_run: now_ms() - 50_000,
            count: 2,
        },
    ];
    for _ in 0..5 {
        record_execution(&mut recents, "root:test");
    }

    let text = encode_recents(&recents);
    let decoded = decode_recents(text.as_str()).unwrap();

    assert_eq!(decoded.len(), recents.len());
    for (a, b) in recents.iter().zip(decoded.iter()) {
        assert_eq!(a.key, b.key);
        assert_eq!(a.count, b.count);
        assert_eq!(a.last_run, b.last_run);
    }

    let scripts = vec![
        SortableScript {
            key: "root:build".to_string(),
            name: "build".to_string(),
            command: String::new(),
        },
        SortableScript {
            key: "root:test".to_string(),
            name: "test".to_string(),
            command: String::new(),
        },
    ];
    let favorites = FavoriteSet::new();
    let before = sort_scripts(&scripts, &favorites, &recents, "");
    let after = sort_scripts(&scripts, &favorites, &decoded, "");
    assert_eq!(before, after);
    assert_eq!(before[0], 1); // five fresh runs outrank two older ones
}
