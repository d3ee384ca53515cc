use metasearch::cache::{ImagesRow, ResultRow, ResultStore};
use metasearch::engines::{EngineError, EngineInfo, ImageEngine, SearchEngine};
use metasearch::merge::{merge_images, merge_results};
use metasearch::{
    fetch_or_cache_image, fetch_or_cache_result, search_engine_images, search_engine_results,
    FetchError, ImageResult, SearchResult,
};

struct FakeEngine;

impl EngineInfo for FakeEngine {
    fn name(&self) -> &'static str {
        "Fake"
    }
}

impl SearchEngine for FakeEngine {
    fn search_results(&self, _query: &str) -> Result<Vec<ResultRow>, EngineError> {
        Ok(vec![
            ResultRow {
                url: "https://fresh-one.example".into(),
                title: "Fresh 1".into(),
                description: "first fresh".into(),
            },
            ResultRow {
                url: "https://fresh-two.example".into(),
                title: "Fresh 2".into(),
                description: "second fresh".into(),
            },
        ])
    }
}

impl ImageEngine for FakeEngine {
    fn search_images(&self, _query: &str) -> Result<Vec<ImagesRow>, EngineError> {
        Ok(vec![ImagesRow {
            url: "https://fresh-img.example".into(),
            title: "Fresh image".into(),
        }])
    }
}

struct FailingEngine;

impl EngineInfo for FailingEngine {
    fn name(&self) -> &'static str {
        "Failing"
    }
}

impl SearchEngine for FailingEngine {
    fn search_results(&self, _query: &str) -> Result<Vec<ResultRow>, EngineError> {
        Err(EngineError::Timeout)
    }
}

fn cached_page() -> Vec<ResultRow> {
    vec![
        ResultRow { url: "https://a.example".into(), title: "A".into(), description: "da".into() },
        ResultRow { url: "https://b.example".into(), title: "B".into(), description: "db".into() },
        ResultRow { url: "https://c.example".into(), title: "C".into(), description: "dc".into() },
    ]
}

#[test]
fn window_reconciliation_fetches_when_short() {
    // 3 cached entries, window [0, 5): the 3 cached entries come back as
    // cache hits, then the entire fresh page as cache misses
    let mut store = ResultStore::new();
    store
        .upsert_query_with_results("Fake", "rust", cached_page(), 11)
        .unwrap();

    let out = fetch_or_cache_result(&mut store, FakeEngine, FakeEngine.name(), "rust".to_string(), 0, 5).unwrap();
    assert_eq!(out.len(), 5);
    for hit in &out[..3] {
        assert!(hit.cached);
        assert_eq!(hit.engines, vec!["Fake".to_string()]);
    }
    assert_eq!(out[0].url, "https://a.example");
    assert_eq!(out[1].url, "https://b.example");
    assert_eq!(out[2].url, "https://c.example");
    assert_eq!(out[3].url, "https://fresh-one.example");
    assert!(!out[3].cached);
    assert_eq!(out[4].url, "https://fresh-two.example");
    assert!(!out[4].cached);

    // the fetched page was persisted after the cached rows
    let engine_id = store.get_engine_id("Fake").unwrap();
    let q = store.get_query("rust", engine_id).unwrap();
    assert_eq!(store.get_results_for_query(q.id).len(), 5);
}

#[test]
fn window_reconciliation_serves_cache_only() {
    // the cache covers the window, so no fetch happens: even an engine
    // whose fetch always fails serves a covered window successfully
    let mut store = ResultStore::new();
    store
        .upsert_query_with_results("Failing", "rust", cached_page(), 11)
        .unwrap();

    let out = fetch_or_cache_result(&mut store, FailingEngine, FailingEngine.name(), "rust".to_string(), 1, 2).unwrap();
    assert_eq!(out.len(), 2);
    assert_eq!(out[0].url, "https://b.example");
    assert_eq!(out[1].url, "https://c.example");
    assert!(out[0].cached && out[1].cached);
}

#[test]
fn reconciliation_surfaces_engine_failure() {
    // an empty cache forces a fetch, and the engine's failure aborts only
    // this reconciliation
    let mut store = ResultStore::new();
    let r = fetch_or_cache_result(&mut store, FailingEngine, FailingEngine.name(), "rust".to_string(), 0, 10);
    assert!(matches!(r, Err(FetchError::Engine(EngineError::Timeout))));
}

#[test]
fn image_reconciliation_roundtrip() {
    let mut store = ResultStore::new();
    let out = fetch_or_cache_image(&mut store, FakeEngine, FakeEngine.name(), "cats".to_string(), 0, 10).unwrap();
    assert_eq!(out.len(), 1);
    assert_eq!(out[0].url, "https://fresh-img.example");
    assert!(!out[0].cached);

    // now the page is cached and a covered window is served from it
    let again = fetch_or_cache_image(&mut store, FakeEngine, FakeEngine.name(), "cats".to_string(), 0, 1).unwrap();
    assert_eq!(again.len(), 1);
    assert!(again[0].cached);
    assert_eq!(again[0].title, "Fresh image");
}

fn sr(url: &str, title: &str, description: &str, engine: &str, cached: bool) -> SearchResult {
    SearchResult {
        url: url.into(),
        title: title.into(),
        description: description.into(),
        engines: vec![engine.to_string()],
        cached,
    }
}

#[test]
fn merge_unions_and_backfills() {
    // engine A contributes a description, engine B an empty one: the
    // merged record keeps the description and lists both engines,
    // and the output is sorted by url
    let rows = vec![
        sr("https://z.example", "Z", "zzz", "A", false),
        sr("https://x.example", "X", "d", "A", false),
        sr("https://x.example", "", "", "B", true),
    ];
    let merged = merge_results(rows);
    assert_eq!(merged.len(), 2);
    assert_eq!(merged[0].url, "https://x.example");
    assert_eq!(merged[0].description, "d");
    assert_eq!(merged[0].title, "X");
    assert_eq!(merged[0].engines, vec!["A".to_string(), "B".to_string()]);
    assert_eq!(merged[1].url, "https://z.example");
}

#[test]
fn merge_keeps_provider_names_unique() {
    let rows = vec![
        sr("https://x.example", "X", "d", "A", false),
        sr("https://x.example", "X", "d", "A", false),
    ];
    let merged = merge_results(rows);
    assert_eq!(merged.len(), 1);
    assert_eq!(merged[0].engines, vec!["A".to_string()]);
}

#[test]
fn merge_images_unions_and_sorts() {
    let rows = vec![
        ImageResult {
            url: "https://b.example/i.png".into(),
            title: "".into(),
            engines: vec!["B".to_string()],
            cached: false,
        },
        ImageResult {
            url: "https://a.example/i.png".into(),
            title: "A image".into(),
            engines: vec!["A".to_string()],
            cached: true,
        },
        ImageResult {
            url: "https://b.example/i.png".into(),
            title: "B image".into(),
            engines: vec!["C".to_string()],
            cached: true,
        },
    ];
    let merged = merge_images(rows);
    assert_eq!(merged.len(), 2);
    assert_eq!(merged[0].url, "https://a.example/i.png");
    assert_eq!(merged[1].url, "https://b.example/i.png");
    // the empty title was backfilled by the later sighting
    assert_eq!(merged[1].title, "B image");
    assert_eq!(merged[1].engines, vec!["B".to_string(), "C".to_string()]);
}

#[test]
fn partial_failure_returns_union_of_survivors() {
    // of 3 engines exactly one fails: the union of the other two comes
    // back and no error is raised
    let outcomes = vec![
        Some(vec![sr("https://x.example", "X", "d", "A", false)]),
        None,
        Some(vec![sr("https://y.example", "Y", "dy", "C", false)]),
    ];
    let out = search_engine_results(outcomes, false).unwrap();
    assert_eq!(out.len(), 2);
    assert_eq!(out[0].url, "https://x.example");
    assert_eq!(out[1].url, "https://y.example");
}

#[test]
fn total_failure_fails_the_call() {
    let outcomes: Vec<Option<Vec<SearchResult>>> = vec![None, None, None];
    let r = search_engine_results(outcomes, false);
    assert!(matches!(r, Err(FetchError::AllEnginesFailed)));
}

#[test]
fn overall_timeout_discards_everything() {
    // once the overall deadline fires, even finished tasks are discarded
    let outcomes = vec![Some(vec![sr("https://x.example", "X", "d", "A", false)])];
    let r = search_engine_results(outcomes, true);
    assert!(matches!(r, Err(FetchError::Timeouts)));
}

#[test]
fn image_orchestration_decides_like_text() {
    let ok = ImageResult {
        url: "https://i.example/i.png".into(),
        title: "I".into(),
        engines: vec!["A".to_string()],
        cached: false,
    };
    let out = search_engine_images(vec![None, Some(vec![ok])], false).unwrap();
    assert_eq!(out.len(), 1);

    let r = search_engine_images(vec![None], false);
    assert!(matches!(r, Err(FetchError::AllEnginesFailed)));

    let r = search_engine_images(vec![], true);
    assert!(matches!(r, Err(FetchError::Timeouts)));
}
