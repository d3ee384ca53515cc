use metasearch::cache::{ImagesRow, ResultRow, ResultStore};

fn new_db() -> ResultStore {
    ResultStore::new()
}

fn sample_results() -> Vec<ResultRow> {
    vec![
        ResultRow {
            url: "https://example.com".into(),
            title: "Example 1".into(),
            description: "First description".into(),
        },
        ResultRow {
            url: "https://super.com".into(),
            title: "Example 2".into(),
            description: "Second description".into(),
        },
        ResultRow {
            url: "https://mega.com".into(),
            title: "Example 3".into(),
            description: "Third description".into(),
        },
    ]
}

#[test]
fn smoke_init_db() {
    let _ = new_db();
}

#[test]
fn test_upsert_query_with_results() {
    let mut pool = new_db();
    let results = sample_results();

    let query = "rust sqlite test";
    let fetched_at = chrono::Utc::now().timestamp();

    // upsert the query and results
    let query_id = pool
        .upsert_query_with_results("Brave", query, results.clone(), fetched_at)
        .expect("Failed to upsert query");

    assert!(query_id > 0);

    // retrieve results for this query
    let fetched = pool.get_results_for_query(query_id);
    assert_eq!(fetched.len(), results.len());

    for (i, r) in results.iter().enumerate() {
        assert_eq!(fetched[i].url, r.url);
        assert_eq!(fetched[i].title, r.title);
        assert_eq!(fetched[i].description, r.description);
    }
}

#[test]
fn test_dedup_results() {
    let mut pool = new_db();
    let results = sample_results();

    let query = "dedup test";
    let fetched_at = chrono::Utc::now().timestamp();

    // first insert
    let first_id = pool
        .upsert_query_with_results("Brave", query, results.clone(), fetched_at)
        .unwrap();

    // second insert with same query/results
    let second_id = pool
        .upsert_query_with_results("Brave", query, results.clone(), fetched_at)
        .unwrap();

    // should return same query_id
    assert_eq!(first_id, second_id);

    let fetched = pool.get_results_for_query(first_id);
    assert_eq!(fetched.len(), results.len());
}

#[test]
fn test_append_results() {
    let mut pool = new_db();
    let page1 = sample_results();
    let page2 = vec![
        ResultRow {
            url: "https://extra.com".into(),
            title: "Extra 1".into(),
            description: "Extra description".into(),
        },
        ResultRow {
            url: "https://more.com".into(),
            title: "Extra 2".into(),
            description: "More description".into(),
        },
    ];

    let query = "pagination test";
    let fetched_at = chrono::Utc::now().timestamp();

    // Insert page 1
    let query_id = pool
        .upsert_query_with_results("DuckDuckGo", query, page1.clone(), fetched_at)
        .unwrap();

    // Append page 2
    pool.upsert_query_with_results("DuckDuckGo", query, page2.clone(), fetched_at)
        .unwrap();

    // Verify all results
    let fetched = pool.get_results_for_query(query_id);
    assert_eq!(fetched.len(), page1.len() + page2.len());
    assert_eq!(fetched[0].url, page1[0].url);
    assert_eq!(fetched.last().unwrap().url, page2.last().unwrap().url);
}

#[test]
fn test_insert_image_and_dedup() {
    let mut pool = new_db();

    let title = "Test Image";
    let url = "https://example.com/img.png";

    // First insert
    let id1 = pool.insert_image(title, url).expect("first insert failed");

    assert!(id1 > 0);

    // Second insert (should dedup)
    let id2 = pool.insert_image(title, url).expect("second insert failed");

    assert_eq!(id1, id2);
}

#[test]
fn test_insert_query_image() {
    let mut pool = new_db();

    // Insert engine & query
    let engine_id = pool.get_engine_id("Brave").unwrap();
    let fetched_at = chrono::Utc::now().timestamp();
    let query_id = pool.insert_query("image-query", engine_id, fetched_at).unwrap();

    // Insert image
    let image_id = pool.insert_image("img-title", "https://img.com").unwrap();

    // Insert mapping
    pool.insert_query_image(query_id, image_id, 0);

    // Fetch back
    let rows = pool.get_image_for_query(query_id);
    assert_eq!(rows.len(), 1);
    assert_eq!(rows[0].query_id, query_id);
    assert_eq!(rows[0].image_id, image_id);
}

#[test]
fn test_get_images_for_query() {
    let mut pool = new_db();

    let engine_id = pool.get_engine_id("Brave").unwrap();
    let fetched_at = chrono::Utc::now().timestamp();
    let query_id = pool.insert_query("img-fetch-test", engine_id, fetched_at).unwrap();

    // Insert two images
    let img1 = pool.insert_image("A", "https://a.com").unwrap();
    let img2 = pool.insert_image("B", "https://b.com").unwrap();

    pool.insert_query_image(query_id, img1, 0);
    pool.insert_query_image(query_id, img2, 1);

    // Fetch images
    let images = pool.get_images_for_query(query_id);

    assert_eq!(images.len(), 2);
    assert_eq!(images[0].title, "A");
    assert_eq!(images[1].title, "B");
}

#[test]
fn test_upsert_query_with_images_basic() {
    let mut pool = new_db();

    let entries = vec![
        ImagesRow {
            url: "https://a.com".into(),
            title: "A".into(),
        },
        ImagesRow {
            url: "https://b.com".into(),
            title: "B".into(),
        },
    ];

    let query = "img-upsert";
    let fetched_at = chrono::Utc::now().timestamp();

    let query_id = pool
        .upsert_query_with_images("Brave", query, entries.clone(), fetched_at)
        .unwrap();

    assert!(query_id > 0);

    // Fetch back
    let imgs = pool.get_images_for_query(query_id);

    assert_eq!(imgs.len(), 2);
    assert_eq!(imgs[0].url, entries[0].url);
    assert_eq!(imgs[1].url, entries[1].url);
}

#[test]
fn test_upsert_query_with_images_append() {
    let mut pool = new_db();

    let page1 = vec![ImagesRow {
        url: "https://a.com".into(),
        title: "A".into(),
    }];

    let page2 = vec![
        ImagesRow {
            url: "https://b.com".into(),
            title: "B".into(),
        },
        ImagesRow {
            url: "https://c.com".into(),
            title: "C".into(),
        },
    ];

    let query = "img-append-test";
    let fetched_at = chrono::Utc::now().timestamp();

    let id1 = pool
        .upsert_query_with_images("Brave", query, page1.clone(), fetched_at)
        .unwrap();

    let id2 = pool
        .upsert_query_with_images("Brave", query, page2.clone(), fetched_at)
        .unwrap();

    // Same query id
    assert_eq!(id1, id2);

    // Should now contain 3 total images, in order
    let imgs = pool.get_images_for_query(id1);

    assert_eq!(imgs.len(), 3);
    assert_eq!(imgs[0].title, "A");
    assert_eq!(imgs[1].title, "B");
    assert_eq!(imgs[2].title, "C");
}

#[test]
fn test_global_dedup_across_queries() {
    // the same url under two distinct queries: one result row, two links
    let mut pool = new_db();
    let row = vec![ResultRow {
        url: "https://shared.example".into(),
        title: "Shared".into(),
        description: "Seen twice".into(),
    }];
    let fetched_at = 7;

    let q1 = pool
        .upsert_query_with_results("Brave", "first query", row.clone(), fetched_at)
        .unwrap();
    let q2 = pool
        .upsert_query_with_results("Brave", "second query", row.clone(), fetched_at)
        .unwrap();
    assert_ne!(q1, q2);

    // a later dedup-insert of the same url resolves to the one stored row
    let rid = pool
        .insert_result("Shared", "https://shared.example", "Seen twice")
        .unwrap();
    let links1 = pool.get_result_for_query(q1);
    let links2 = pool.get_result_for_query(q2);
    assert_eq!(links1.len(), 1);
    assert_eq!(links2.len(), 1);
    assert_eq!(links1[0].result_id, rid);
    assert_eq!(links2[0].result_id, rid);
}

#[test]
fn test_first_insert_wins_fields() {
    // a repeated url keeps the first title and description
    let mut pool = new_db();
    let id1 = pool.insert_result("First title", "https://one.example", "First").unwrap();
    let id2 = pool.insert_result("Second title", "https://one.example", "Second").unwrap();
    assert_eq!(id1, id2);

    let qid = pool
        .upsert_query_with_results(
            "Brave",
            "field test",
            vec![ResultRow {
                url: "https://one.example".into(),
                title: "Third title".into(),
                description: "Third".into(),
            }],
            0,
        )
        .unwrap();
    let rows = pool.get_results_for_query(qid);
    assert_eq!(rows.len(), 1);
    assert_eq!(rows[0].title, "First title");
    assert_eq!(rows[0].description, "First");
}

#[test]
fn test_upsert_scenario_fresh_store() {
    // empty store: the first query gets id 1, its rows come back in
    // order, and repeating the call changes nothing
    let mut pool = new_db();
    let entries = vec![
        ResultRow { url: "a".into(), title: "".into(), description: "".into() },
        ResultRow { url: "b".into(), title: "".into(), description: "".into() },
        ResultRow { url: "c".into(), title: "".into(), description: "".into() },
    ];
    let t0 = 0;

    let query_id = pool
        .upsert_query_with_results("Brave", "rust", entries.clone(), t0)
        .unwrap();
    assert_eq!(query_id, 1);

    let cached = pool.get_results_for_query(1);
    assert_eq!(cached.len(), 3);
    assert_eq!(cached[0].url, "a");
    assert_eq!(cached[1].url, "b");
    assert_eq!(cached[2].url, "c");

    let again = pool
        .upsert_query_with_results("Brave", "rust", entries.clone(), t0)
        .unwrap();
    assert_eq!(again, 1);
    assert_eq!(pool.get_results_for_query(1).len(), 3);
}

#[test]
fn test_get_query_roundtrip() {
    let mut pool = new_db();
    let engine_id = pool.get_engine_id("Brave").unwrap();
    assert_eq!(engine_id, 1);
    // idempotent
    assert_eq!(pool.get_engine_id("Brave").unwrap(), 1);
    assert_eq!(pool.insert_engine("Brave").unwrap(), 1);

    assert!(pool.get_query("nothing here", engine_id).is_none());
    let qid = pool.insert_query("a query", engine_id, 42).unwrap();
    let row = pool.get_query("a query", engine_id).expect("query row");
    assert_eq!(row.id, qid);
    assert_eq!(row.query, "a query");
    assert_eq!(row.engine_id, engine_id);
    assert_eq!(row.fetched_at, 42);
}

#[test]
fn test_upsert_images_idempotent() {
    // repeating an image upsert with identical arguments returns the same
    // query id and adds no duplicate links
    let mut pool = new_db();
    let entries = vec![
        ImagesRow { url: "https://p.example/1.png".into(), title: "P1".into() },
        ImagesRow { url: "https://p.example/2.png".into(), title: "P2".into() },
    ];
    let id1 = pool.upsert_query_with_images("Brave", "repeat imgs", entries.clone(), 5).unwrap();
    let id2 = pool.upsert_query_with_images("Brave", "repeat imgs", entries.clone(), 5).unwrap();
    assert_eq!(id1, id2);
    assert_eq!(pool.get_images_for_query(id1).len(), 2);
}

#[test]
fn test_append_page_with_already_linked_url() {
    // a page that repeats an already-linked url adds only the new entry,
    // and positions stay contiguous: the cached order is first-seen order
    let mut pool = new_db();
    let a = ResultRow { url: "https://a.example".into(), title: "A".into(), description: "".into() };
    let b = ResultRow { url: "https://b.example".into(), title: "B".into(), description: "".into() };

    let qid = pool
        .upsert_query_with_results("Brave", "mixed page", vec![a.clone()], 3)
        .unwrap();
    pool.upsert_query_with_results("Brave", "mixed page", vec![a.clone(), b.clone()], 3)
        .unwrap();

    let cached = pool.get_results_for_query(qid);
    assert_eq!(cached.len(), 2);
    assert_eq!(cached[0].url, a.url);
    assert_eq!(cached[1].url, b.url);
}

#[test]
fn test_global_dedup_in_mixed_page() {
    // an already-linked url arriving inside a larger page under another
    // query resolves to the one stored row; the first query is untouched
    let mut pool = new_db();
    let u = ResultRow { url: "https://u.example".into(), title: "U".into(), description: "".into() };
    let w = ResultRow { url: "https://w.example".into(), title: "W".into(), description: "".into() };

    let q1 = pool.upsert_query_with_results("Brave", "first", vec![u.clone()], 1).unwrap();
    let q2 = pool
        .upsert_query_with_results("Brave", "second", vec![u.clone(), w.clone()], 2)
        .unwrap();
    assert_ne!(q1, q2);

    let rid = pool.insert_result("U", "https://u.example", "").unwrap();
    let links1 = pool.get_result_for_query(q1);
    let links2 = pool.get_result_for_query(q2);
    assert_eq!(links1.len(), 1);
    assert_eq!(links1[0].result_id, rid);
    assert_eq!(links2.len(), 2);
    assert_eq!(links2[0].result_id, rid);
}
