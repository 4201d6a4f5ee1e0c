use nr::favorites::FavoriteSet;
use nr::favorites::toggle_favorite;
use nr::fuzzy::fuzzy_filter;
use nr::recents::now_ms;
use nr::recents::RecentEntry;
use nr::sort::sort_scripts;
use nr::sort::SortableScript;

fn make_script(key: &str, name: &str) -> SortableScript {
    SortableScript {
        key: key.to_string(),
        name: name.to_string(),
        command: "echo test".to_string(),
    }
}

fn make_recent(key: &str, count: u32, last_used_secs_ago: u64) -> RecentEntry {
    let now = now_ms();
    let secs_ago_ms = last_used_secs_ago * 1000;
    RecentEntry {
        key: key.to_string(),
        count,
        last_run: now - secs_ago_ms,
    }
}

fn favorites_of(keys: &[&str]) -> FavoriteSet {
    let mut favorites = FavoriteSet::new();
    for key in keys {
        toggle_favorite(&mut favorites, key);
    }
    favorites
}

#[test]
fn test_no_query_favorites_first() {
    let scripts = vec![
        make_script("build", "build"),
        make_script("test", "test"),
        make_script("dev", "dev"),
    ];

    let favorites = favorites_of(&["test"]);
    let recents = vec![];

    let result = sort_scripts(&scripts, &favorites, &recents, "");

    // "test" (favorite) should be first
    assert_eq!(result[0], 1);
}

#[test]
fn test_no_query_favorites_alphabetical() {
    let scripts = vec![
        make_script("zebra", "zebra"),
        make_script("alpha", "alpha"),
        make_script("beta", "beta"),
    ];

    let favorites = favorites_of(&["zebra", "alpha"]);
    let recents = vec![];

    let result = sort_scripts(&scripts, &favorites, &recents, "");

    // Both are favorites, should be alphabetical
    assert_eq!(result[0], 1); // alpha
    assert_eq!(result[1], 0); // zebra
    assert_eq!(result[2], 2); // beta (not favorite)
}

#[test]
fn test_no_query_recents_by_frecency() {
    let scripts = vec![
        make_script("build", "build"),
        make_script("test", "test"),
        make_script("dev", "dev"),
    ];

    let recents = vec![
        make_recent("build", 5, 100), // count=5, 100s ago
        make_recent("test", 10, 10),  // count=10, 10s ago -> highest score
        make_recent("dev", 3, 50),    // count=3, 50s ago -> lowest score
    ];

    let favorites = FavoriteSet::new();

    let result = sort_scripts(&scripts, &favorites, &recents, "");

    // Order by frecency: test (highest), build (medium count), dev (lowest)
    assert_eq!(result[0], 1); // test - highest frecency
    assert_eq!(result[1], 0); // build - count factor dominates
    assert_eq!(result[2], 2); // dev - lowest frecency
}

#[test]
fn test_no_query_non_recents_alphabetical() {
    let scripts = vec![
        make_script("zebra", "zebra"),
        make_script("alpha", "alpha"),
        make_script("beta", "beta"),
    ];

    let recents = vec![];
    let favorites = FavoriteSet::new();

    let result = sort_scripts(&scripts, &favorites, &recents, "");

    // All should be alphabetical
    assert_eq!(result[0], 1); // alpha
    assert_eq!(result[1], 2); // beta
    assert_eq!(result[2], 0); // zebra
}

#[test]
fn test_with_query_relevance_priority() {
    let scripts = vec![
        make_script("test", "test"),           // exact match
        make_script("test:unit", "test:unit"), // prefix match
        make_script("build", "build"),         // no match
    ];

    let favorites = FavoriteSet::new();
    let recents = vec![];

    let result = sort_scripts(&scripts, &favorites, &recents, "test");

    // Should match both test scripts, not build
    assert_eq!(result.len(), 2);
    assert!(result.contains(&0));
    assert!(result.contains(&1));
    assert!(!result.contains(&2));
}

#[test]
fn test_with_query_favorite_breaks_tie() {
    let scripts = vec![
        make_script("test", "test"),
        make_script("test:unit", "test:unit"),
    ];

    let favorites = favorites_of(&["test:unit"]);
    let recents = vec![];

    let result = sort_scripts(&scripts, &favorites, &recents, "test");

    // Both match "test" with equal relevance, but "test:unit" is favorite
    assert_eq!(result[0], 1); // test:unit (favorite)
}

#[test]
fn test_with_query_recent_breaks_tie() {
    let scripts = vec![
        make_script("test", "test"),
        make_script("test:unit", "test:unit"),
    ];

    let recents = vec![make_recent("test:unit", 10, 10)];

    let favorites = FavoriteSet::new();

    let result = sort_scripts(&scripts, &favorites, &recents, "test");

    // Both match "test" with equal relevance, but "test:unit" is recent
    assert_eq!(result[0], 1); // test:unit (recent)
}

#[test]
fn test_mixed_favorites_and_recents() {
    let scripts = vec![
        make_script("build", "build"),
        make_script("test", "test"),
        make_script("dev", "dev"),
        make_script("lint", "lint"),
    ];

    let favorites = favorites_of(&["lint"]);
    let recents = vec![make_recent("test", 10, 10), make_recent("dev", 5, 50)];

    let result = sort_scripts(&scripts, &favorites, &recents, "");

    // Order: lint (favorite), test (high frecency), dev (medium), build (none)
    assert_eq!(result[0], 3); // lint
    assert_eq!(result[1], 1); // test
    assert_eq!(result[2], 2); // dev
    assert_eq!(result[3], 0); // build
}

#[test]
fn test_empty_scripts() {
    let scripts: Vec<SortableScript> = vec![];
    let favorites = FavoriteSet::new();
    let recents = vec![];

    let result = sort_scripts(&scripts, &favorites, &recents, "");
    assert_eq!(result, Vec::<usize>::new());
}

#[test]
fn test_query_no_matches() {
    let scripts = vec![make_script("build", "build"), make_script("test", "test")];

    let favorites = FavoriteSet::new();
    let recents = vec![];

    let result = sort_scripts(&scripts, &favorites, &recents, "zzz");
    assert_eq!(result, Vec::<usize>::new());
}

#[test]
fn test_favorite_first_then_alphabetical_scenario() {
    // items by key root:build / root:test / root:lint, favorite root:test,
    // no recents, no query: the favorite leads, the rest are alphabetical.
    let scripts = vec![
        make_script("root:build", "build"),
        make_script("root:test", "test"),
        make_script("root:lint", "lint"),
    ];

    let favorites = favorites_of(&["root:test"]);
    let recents = vec![];

    let result = sort_scripts(&scripts, &favorites, &recents, "");

    assert_eq!(result, vec![1, 0, 2]); // test, build, lint
}

#[test]
fn test_relevance_outranks_favorite_and_recency() {
    // A contiguous match outranks a gapped match even when the gapped match
    // is a well-used favorite.
    let scripts = vec![
        make_script("k1", "test"),
        make_script("k2", "txest"),
    ];
    let favorites = favorites_of(&["k2"]);
    let recents = vec![make_recent("k2", 10, 10)];

    let result = sort_scripts(&scripts, &favorites, &recents, "test");

    assert_eq!(result.len(), 2);
    assert_eq!(result[0], 0); // the contiguous match wins on relevance alone
}

// --- fuzzy filter ---

fn texts(items: &[&str]) -> Vec<String> {
    items.iter().map(|s| s.to_string()).collect()
}

#[test]
fn test_empty_query_returns_all_indices() {
    let items = texts(&["build", "test", "dev", "lint"]);
    let result = fuzzy_filter(&items, "");
    assert_eq!(result, vec![0, 1, 2, 3]);
}

#[test]
fn test_exact_match_scores_highest() {
    let items = texts(&["build", "rebuild", "build:prod"]);
    let result = fuzzy_filter(&items, "build");
    // "build" should be first as exact match
    assert_eq!(result[0], 0);
    assert_eq!(result.len(), 3);
}

#[test]
fn test_partial_match_works() {
    let items = texts(&["test", "test:unit", "test:integration", "build"]);
    let result = fuzzy_filter(&items, "tst");
    // All "test" variants should match "tst"
    assert!(result.contains(&0));
    assert!(result.contains(&1));
    assert!(result.contains(&2));
    // "build" should not match
    assert!(!result.contains(&3));
}

#[test]
fn test_no_match_returns_empty() {
    let items = texts(&["build", "test", "dev"]);
    let result = fuzzy_filter(&items, "zzz");
    assert_eq!(result, Vec::<usize>::new());
}

#[test]
fn test_case_insensitive() {
    let items = texts(&["Build", "TEST", "Dev"]);
    let result = fuzzy_filter(&items, "build");
    assert_eq!(result[0], 0);
}

#[test]
fn test_substring_matching() {
    let items = texts(&["start:dev", "start:prod", "test:start", "build"]);
    let result = fuzzy_filter(&items, "start");
    // All items with "start" should match
    assert_eq!(result.len(), 3);
    assert!(result.contains(&0));
    assert!(result.contains(&1));
    assert!(result.contains(&2));
}

#[test]
fn test_relevance_ordering() {
    let items = texts(&["xbuildx", "build", "rebuilder"]);
    let result = fuzzy_filter(&items, "build");
    // Exact match should score higher than contained match
    assert_eq!(result[0], 1); // "build" exact
}

#[test]
fn test_with_struct() {
    let scripts = vec![
        SortableScript {
            key: "k0".to_string(),
            name: "test".to_string(),
            command: String::new(),
        },
        SortableScript {
            key: "k1".to_string(),
            name: "build".to_string(),
            command: String::new(),
        },
        SortableScript {
            key: "k2".to_string(),
            name: "test:unit".to_string(),
            command: String::new(),
        },
    ];

    let names: Vec<String> = scripts.iter().map(|s| s.name.clone()).collect();
    let result = fuzzy_filter(&names, "test");
    assert_eq!(result.len(), 2);
    // Both test scripts should match
    assert!(result.contains(&0));
    assert!(result.contains(&2));
}
