//! A federated web-search aggregator core: a durable result store with
//! global URL dedup and append-only per-query ordering, a cache reconciler
//! that performs at most one live fetch per call, an orchestrator decision
//! rule that tolerates partial engine failure, and a merger that
//! deduplicates cross-engine results by exact URL and orders them
//! lexicographically.
pub mod cache;
pub mod engines;
pub mod merge;
pub mod util;

use vstd::prelude::*;

use crate::cache::StoreError;
use crate::engines::EngineError;
use crate::util::lex_lt;

verus! {

/// Mathematical image of a merged search result.
#[verifier::ext_equal]
pub ghost struct SearchModel {
    pub url: Seq<char>,
    pub title: Seq<char>,
    pub description: Seq<char>,
    pub engines: Seq<Seq<char>>,
    pub cached: bool,
}

/// Mathematical image of a merged image result.
#[verifier::ext_equal]
pub ghost struct ImageResultModel {
    pub url: Seq<char>,
    pub title: Seq<char>,
    pub engines: Seq<Seq<char>>,
    pub cached: bool,
}

/// One search result as served to the caller, with the engines that
/// contributed it and whether it was served from the cache.
#[derive(Debug, Clone)]
pub struct SearchResult {
    pub url: String,
    pub title: String,
    pub description: String,
    pub engines: Vec<String>,
    pub cached: bool,
}

/// One image result as served to the caller.
#[derive(Debug, Clone)]
pub struct ImageResult {
    pub url: String,
    pub title: String,
    pub engines: Vec<String>,
    pub cached: bool,
}

/// Views of a sequence of engine names.
pub open spec fn names_view(s: Seq<String>) -> Seq<Seq<char>> {
    s.map_values(|x: String| x@)
}

impl View for SearchResult {
    type V = SearchModel;

    open spec fn view(&self) -> SearchModel {
        SearchModel {
            url: self.url@,
            title: self.title@,
            description: self.description@,
            engines: names_view(self.engines@),
            cached: self.cached,
        }
    }
}

impl View for ImageResult {
    type V = ImageResultModel;

    open spec fn view(&self) -> ImageResultModel {
        ImageResultModel {
            url: self.url@,
            title: self.title@,
            engines: names_view(self.engines@),
            cached: self.cached,
        }
    }
}

/// Views of a sequence of search results.
pub open spec fn sr_view(s: Seq<SearchResult>) -> Seq<SearchModel> {
    s.map_values(|x: SearchResult| x@)
}

/// Views of a sequence of image results.
pub open spec fn ir_view(s: Seq<ImageResult>) -> Seq<ImageResultModel> {
    s.map_values(|x: ImageResult| x@)
}

impl PartialEq for SearchResult {
    /// Results compare by their URL, the merger's canonical key.
    fn eq(&self, other: &Self) -> (r: bool) {
        crate::util::str_eq(self.url.as_str(), other.url.as_str())
    }
}

impl vstd::std_specs::cmp::PartialEqSpecImpl for SearchResult {
    open spec fn obeys_eq_spec() -> bool {
        true
    }

    open spec fn eq_spec(&self, other: &Self) -> bool {
        self.url@ == other.url@
    }
}

impl PartialOrd for SearchResult {
    /// Results order by their URL, the merger's output order.
    fn partial_cmp(&self, other: &Self) -> (r: Option<core::cmp::Ordering>) {
        if crate::util::str_lt(self.url.as_str(), other.url.as_str()) {
            Some(core::cmp::Ordering::Less)
        } else if crate::util::str_eq(self.url.as_str(), other.url.as_str()) {
            Some(core::cmp::Ordering::Equal)
        } else {
            Some(core::cmp::Ordering::Greater)
        }
    }
}

impl vstd::std_specs::cmp::PartialOrdSpecImpl for SearchResult {
    open spec fn obeys_partial_cmp_spec() -> bool {
        true
    }

    open spec fn partial_cmp_spec(&self, other: &Self) -> Option<core::cmp::Ordering> {
        if lex_lt(self.url@, other.url@) {
            Some(core::cmp::Ordering::Less)
        } else if self.url@ == other.url@ {
            Some(core::cmp::Ordering::Equal)
        } else {
            Some(core::cmp::Ordering::Greater)
        }
    }
}

impl PartialEq for ImageResult {
    /// Image results compare by their URL.
    fn eq(&self, other: &Self) -> (r: bool) {
        crate::util::str_eq(self.url.as_str(), other.url.as_str())
    }
}

impl vstd::std_specs::cmp::PartialEqSpecImpl for ImageResult {
    open spec fn obeys_eq_spec() -> bool {
        true
    }

    open spec fn eq_spec(&self, other: &Self) -> bool {
        self.url@ == other.url@
    }
}

impl PartialOrd for ImageResult {
    /// Image results order by their URL.
    fn partial_cmp(&self, other: &Self) -> (r: Option<core::cmp::Ordering>) {
        if crate::util::str_lt(self.url.as_str(), other.url.as_str()) {
            Some(core::cmp::Ordering::Less)
        } else if crate::util::str_eq(self.url.as_str(), other.url.as_str()) {
            Some(core::cmp::Ordering::Equal)
        } else {
            Some(core::cmp::Ordering::Greater)
        }
    }
}

impl vstd::std_specs::cmp::PartialOrdSpecImpl for ImageResult {
    open spec fn obeys_partial_cmp_spec() -> bool {
        true
    }

    open spec fn partial_cmp_spec(&self, other: &Self) -> Option<core::cmp::Ordering> {
        if lex_lt(self.url@, other.url@) {
            Some(core::cmp::Ordering::Less)
        } else if self.url@ == other.url@ {
            Some(core::cmp::Ordering::Equal)
        } else {
            Some(core::cmp::Ordering::Greater)
        }
    }
}

/// Why a search call failed: a store failure, an engine failure, every
/// engine failing, or the overall deadline elapsing.
#[derive(Debug)]
pub enum FetchError {
    Store(StoreError),
    Engine(EngineError),
    AllEnginesFailed,
    Timeouts,
}

/// The built-in engines that serve text search.
#[derive(Debug, Clone, Copy)]
pub enum SearchEngines {
    Brave,
    DuckDuckGo,
}

/// The built-in engines that serve image search.
#[derive(Debug, Clone, Copy)]
pub enum ImageEngines {
    Brave,
}

/// Relies on std's SystemTime::now: the current clock time as a Unix
/// timestamp, negative before the epoch, saturating at the type's ends.
/// Nothing more is promised of it; the clock is the machine's.
#[verifier::external_body]
fn now_timestamp() -> i64 {
    match std::time::SystemTime::now().duration_since(std::time::UNIX_EPOCH) {
        Ok(d) => i64::try_from(d.as_secs()).unwrap_or(i64::MAX),
        Err(e) => i64::try_from(e.duration().as_secs()).map_or(i64::MIN, |s| -s),
    }
}

/// The rows cached for `(engine, text)`: those linked to its query row,
/// in stored order; empty when the engine or the query is unknown.
pub open spec fn cached_for(m: cache::StoreModel, engine: Seq<char>, text: Seq<char>) -> Seq<
    cache::RowModel,
> {
    match cache::find_query(m.queries, text, cache::engine_id_in(m, engine)) {
        Some(i) => cache::cached_results_of(m, i + 1),
        None => Seq::empty(),
    }
}

/// The image rows cached for `(engine, text)`.
pub open spec fn cached_images_for(m: cache::StoreModel, engine: Seq<char>, text: Seq<char>) -> Seq<
    cache::ImageModel,
> {
    match cache::find_query(m.queries, text, cache::engine_id_in(m, engine)) {
        Some(i) => cache::cached_images_of(m, i + 1),
        None => Seq::empty(),
    }
}

/// The slice of the cached rows that serves the window `[start, start+count)`,
/// clipped to what the cache holds.
pub open spec fn window_of<T>(cached: Seq<T>, start: int, count: int) -> Seq<T> {
    let lo = if start <= cached.len() {
        start
    } else {
        cached.len() as int
    };
    let hi = if start + count <= cached.len() {
        start + count
    } else {
        cached.len() as int
    };
    cached.subrange(lo, hi)
}

/// A cache hit as served: the stored row, attributed to the serving
/// engine, marked as cached.
pub open spec fn hit_model(row: cache::RowModel, engine: Seq<char>) -> SearchModel {
    SearchModel {
        url: row.url,
        title: row.title,
        description: row.description,
        engines: seq![engine],
        cached: true,
    }
}

/// A fresh fetch entry as served: marked as not cached.
pub open spec fn miss_model(row: cache::RowModel, engine: Seq<char>) -> SearchModel {
    SearchModel {
        url: row.url,
        title: row.title,
        description: row.description,
        engines: seq![engine],
        cached: false,
    }
}

/// The cache-hit part of a reconciliation's answer.
pub open spec fn hits_of(
    cached: Seq<cache::RowModel>,
    start: int,
    count: int,
    engine: Seq<char>,
) -> Seq<SearchModel> {
    window_of(cached, start, count).map_values(|r: cache::RowModel| hit_model(r, engine))
}

/// The cache-miss part: the whole fresh page, in engine order.
pub open spec fn misses_of(page: Seq<cache::RowModel>, engine: Seq<char>) -> Seq<SearchModel> {
    page.map_values(|r: cache::RowModel| miss_model(r, engine))
}

/// An image cache hit as served.
pub open spec fn hit_img_model(row: cache::ImageModel, engine: Seq<char>) -> ImageResultModel {
    ImageResultModel { url: row.url, title: row.title, engines: seq![engine], cached: true }
}

/// A fresh image fetch entry as served.
pub open spec fn miss_img_model(row: cache::ImageModel, engine: Seq<char>) -> ImageResultModel {
    ImageResultModel { url: row.url, title: row.title, engines: seq![engine], cached: false }
}

/// The cache-hit part of an image reconciliation's answer.
pub open spec fn img_hits_of(
    cached: Seq<cache::ImageModel>,
    start: int,
    count: int,
    engine: Seq<char>,
) -> Seq<ImageResultModel> {
    window_of(cached, start, count).map_values(|r: cache::ImageModel| hit_img_model(r, engine))
}

/// The cache-miss part of an image reconciliation's answer.
pub open spec fn img_misses_of(page: Seq<cache::ImageModel>, engine: Seq<char>) -> Seq<
    ImageResultModel,
> {
    page.map_values(|r: cache::ImageModel| miss_img_model(r, engine))
}

/// What one reconciliation does, for each outcome. When the cache covers
/// the window it serves exactly that window and fetches nothing. When it
/// falls short, the answer is the covered part of the window followed by
/// some whole fetched page, which is upserted; an engine failure or a
/// full store aborts only this reconciliation, leaving the store with at
/// most the engine row registered.
pub open spec fn fetch_or_cache_result_post(
    m: cache::StoreModel,
    engine: Seq<char>,
    text: Seq<char>,
    start: int,
    count: int,
    r: Result<Vec<SearchResult>, FetchError>,
    mf: cache::StoreModel,
) -> bool {
    let reg_ok = cache::find_engine(m.engines, engine) is Some || m.engines.len()
        < cache::STORE_CAP;
    let cached = cached_for(m, engine, text);
    let hits = hits_of(cached, start, count, engine);
    if !reg_ok {
        &&& r matches Err(FetchError::Store(StoreError::Full))
        &&& mf == m
    } else if start + count <= cached.len() {
        &&& r matches Ok(out) && sr_view(out@) == hits
        &&& mf == cache::register_engine(m, engine)
    } else {
        match r {
            Ok(out) => exists|page: Seq<cache::RowModel>, t: int|
                {
                    &&& sr_view(out@) == hits + misses_of(page, engine)
                    &&& cache::upsert_results_fits(
                        cache::register_engine(m, engine),
                        engine,
                        text,
                        page,
                    )
                    &&& mf == #[trigger] cache::upsert_results_model(
                        cache::register_engine(m, engine),
                        engine,
                        text,
                        page,
                        t,
                    )
                },
            Err(FetchError::Engine(_)) => mf == cache::register_engine(m, engine),
            Err(FetchError::Store(StoreError::Full)) => mf == cache::register_engine(m, engine),
            _ => false,
        }
    }
}

/// The image twin of `fetch_or_cache_result_post`.
pub open spec fn fetch_or_cache_image_post(
    m: cache::StoreModel,
    engine: Seq<char>,
    text: Seq<char>,
    start: int,
    count: int,
    r: Result<Vec<ImageResult>, FetchError>,
    mf: cache::StoreModel,
) -> bool {
    let reg_ok = cache::find_engine(m.engines, engine) is Some || m.engines.len()
        < cache::STORE_CAP;
    let cached = cached_images_for(m, engine, text);
    let hits = img_hits_of(cached, start, count, engine);
    if !reg_ok {
        &&& r matches Err(FetchError::Store(StoreError::Full))
        &&& mf == m
    } else if start + count <= cached.len() {
        &&& r matches Ok(out) && ir_view(out@) == hits
        &&& mf == cache::register_engine(m, engine)
    } else {
        match r {
            Ok(out) => exists|page: Seq<cache::ImageModel>, t: int|
                {
                    &&& ir_view(out@) == hits + img_misses_of(page, engine)
                    &&& cache::upsert_images_fits(
                        cache::register_engine(m, engine),
                        engine,
                        text,
                        page,
                    )
                    &&& mf == #[trigger] cache::upsert_images_model(
                        cache::register_engine(m, engine),
                        engine,
                        text,
                        page,
                        t,
                    )
                },
            Err(FetchError::Engine(_)) => mf == cache::register_engine(m, engine),
            Err(FetchError::Store(StoreError::Full)) => mf == cache::register_engine(m, engine),
            _ => false,
        }
    }
}

/// Serve the window `[start, start+count)` for `(engine, query)`: answer
/// from the cache first and, only when the cache falls short of the
/// window's end, perform exactly one live fetch, persist the fetched page
/// after the cached rows, and append the whole page as cache-miss
/// results in engine order. `engine_name` is the identity the cache is
/// keyed by and the results are attributed to; the caller passes the
/// adapter's own name, which the adapter trait itself cannot promise.
pub fn fetch_or_cache_result<E: engines::SearchEngine>(
    store: &mut cache::ResultStore,
    engine: E,
    engine_name: &str,
    query: String,
    start: usize,
    count: usize,
) -> (r: Result<Vec<SearchResult>, FetchError>)
    requires
        old(store).wf(),
        start + count <= usize::MAX,
    ensures
        final(store).wf(),
        fetch_or_cache_result_post(
            old(store)@,
            engine_name@,
            query@,
            start as int,
            count as int,
            r,
            final(store)@,
        ),
{
    let ghost m = store@;
    let ghost ename = engine_name@;
    let mut search_results: Vec<SearchResult> = Vec::new();
    let engine_id = match store.get_engine_id(engine_name) {
        Ok(id) => id,
        Err(e) => {
            return Err(FetchError::Store(e));
        },
    };
    proof {
        assert(cache::find_engine(m.engines, ename) is Some || m.engines.len()
            < cache::STORE_CAP);
        cache::lemma_register_engine_wf(m, ename);
    }
    let ghost m1 = store@;
    // read the rows already cached for this (engine, query)
    let q_opt = store.get_query(query.as_str(), engine_id);
    let cached_rows = match &q_opt {
        Some(query_row) => store.get_results_for_query(query_row.id),
        None => Vec::new(),
    };
    let ghost cached = cached_for(m, ename, query@);
    proof {
        match q_opt {
            Some(qr) => {
                let i = cache::find_query(m.queries, query@, cache::engine_id_in(m, ename));
                assert(i is Some);
                assert(cache::cached_results_of(m1, qr.id as int) == cache::cached_results_of(
                    m,
                    qr.id as int,
                ));
                assert(cache::rows_view(cached_rows@) == cached);
            },
            None => {
                assert(cache::rows_view(cached_rows@) =~= Seq::<cache::RowModel>::empty());
            },
        }
    }
    let cached_count = cached_rows.len();
    let needed_end = start + count;
    let lo = if start < cached_count {
        start
    } else {
        cached_count
    };
    let hi = if cached_count < needed_end {
        cached_count
    } else {
        needed_end
    };
    let ghost hits = hits_of(cached, start as int, count as int, ename);
    proof {
        assert(window_of(cached, start as int, count as int) == cached.subrange(
            lo as int,
            hi as int,
        ));
        assert(hits.len() == hi - lo);
        assert(hits.take(0) =~= Seq::<SearchModel>::empty());
        assert(sr_view(search_results@) =~= Seq::<SearchModel>::empty());
    }
    // serve the covered part of the window as cache hits
    let mut i: usize = lo;
    while i < hi
        invariant
            lo <= i <= hi <= cached_rows@.len(),
            cached == cache::rows_view(cached_rows@),
            hits == hits_of(cached, start as int, count as int, ename),
            hits.len() == hi - lo,
            window_of(cached, start as int, count as int) == cached.subrange(
                lo as int,
                hi as int,
            ),
            engine_name@ == ename,
            sr_view(search_results@) == hits.take(i - lo),
        decreases hi - i,
    {
        let row = &cached_rows[i];
        let mut en: Vec<String> = Vec::new();
        en.push(engine_name.to_owned());
        let newrow = SearchResult {
            url: row.url.clone(),
            title: row.title.clone(),
            description: row.description.clone(),
            engines: en,
            cached: true,
        };
        proof {
            assert(names_view(newrow.engines@) =~= seq![ename]);
            assert(newrow@ =~= hit_model(cached[i as int], ename));
        }
        let ghost gn = newrow;
        let ghost prev = search_results@;
        search_results.push(newrow);
        proof {
            assert(search_results@ == prev.push(gn));
            assert(sr_view(prev).len() == prev.len());
            assert forall|w: int| 0 <= w < prev.len() + 1 implies sr_view(search_results@)[w]
                == hits.take(i + 1 - lo)[w] by {
                if w < prev.len() {
                    assert(prev.push(gn)[w] == prev[w]);
                    assert(sr_view(prev)[w] == hits.take(i - lo)[w]);
                } else {
                    assert(prev.push(gn)[w] == gn);
                    assert(hits[i - lo] == hit_model(
                        window_of(cached, start as int, count as int)[i - lo],
                        ename,
                    ));
                    assert(window_of(cached, start as int, count as int)[i - lo]
                        == cached[i as int]);
                }
            }
            assert(sr_view(search_results@) =~= hits.take(i + 1 - lo));
        }
        i += 1;
    }
    proof {
        assert(hits.take(hi - lo) =~= hits);
    }
    if cached_count < needed_end {
        // the cache falls short: one live fetch
        let page = match engine.search_results(query.as_str()) {
            Ok(p) => p,
            Err(e) => {
                return Err(FetchError::Engine(e));
            },
        };
        let fetched_at = now_timestamp();
        let entries = cache::clone_rows(&page);
        match store.upsert_query_with_results(engine_name, query.as_str(), entries, fetched_at) {
            Err(e) => {
                return Err(FetchError::Store(e));
            },
            Ok(_query_id) => {
                // every entry of the fresh page is a cache-miss result
                let ghost misses = misses_of(cache::rows_view(page@), ename);
                let n2 = page.len();
                proof {
                    assert(misses.take(0) =~= Seq::<SearchModel>::empty());
                    assert(hits + misses.take(0) =~= hits);
                }
                let mut j: usize = 0;
                while j < n2
                    invariant
                        n2 == page@.len(),
                        misses == misses_of(cache::rows_view(page@), ename),
                        misses.len() == n2,
                        engine_name@ == ename,
                        0 <= j <= n2,
                        sr_view(search_results@) == hits + misses.take(j as int),
                        hits.len() + j == sr_view(search_results@).len(),
                    decreases n2 - j,
                {
                    let row = &page[j];
                    let mut en: Vec<String> = Vec::new();
                    en.push(engine_name.to_owned());
                    let newrow = SearchResult {
                        url: row.url.clone(),
                        title: row.title.clone(),
                        description: row.description.clone(),
                        engines: en,
                        cached: false,
                    };
                    proof {
                        assert(names_view(newrow.engines@) =~= seq![ename]);
                        assert(newrow@ =~= miss_model(cache::rows_view(page@)[j as int], ename));
                        assert(misses[j as int] == miss_model(
                            cache::rows_view(page@)[j as int],
                            ename,
                        ));
                    }
                    let ghost gn = newrow;
                    let ghost prev = search_results@;
                    search_results.push(newrow);
                    proof {
                        assert(search_results@ == prev.push(gn));
                        assert(sr_view(prev).len() == prev.len());
                        assert forall|w: int|
                            0 <= w < prev.len() + 1 implies sr_view(search_results@)[w] == (hits
                            + misses.take(j + 1))[w] by {
                            if w < prev.len() {
                                assert(prev.push(gn)[w] == prev[w]);
                                assert(sr_view(prev)[w] == (hits + misses.take(j as int))[w]);
                                if w < hits.len() {
                                    assert((hits + misses.take(j as int))[w] == hits[w]);
                                    assert((hits + misses.take(j + 1))[w] == hits[w]);
                                } else {
                                    assert((hits + misses.take(j as int))[w] == misses.take(
                                        j as int,
                                    )[w - hits.len()]);
                                    assert((hits + misses.take(j + 1))[w] == misses.take(j + 1)[w
                                        - hits.len()]);
                                }
                            } else {
                                assert(prev.push(gn)[w] == gn);
                                assert((hits + misses.take(j + 1))[w] == misses.take(j + 1)[w
                                    - hits.len()]);
                                assert(misses.take(j + 1)[j as int] == misses[j as int]);
                            }
                        }
                        assert(sr_view(search_results@) =~= hits + misses.take(j + 1));
                    }
                    j += 1;
                }
                proof {
                    assert(misses.take(n2 as int) =~= misses);
                    assert(sr_view(search_results@) == hits + misses_of(
                        cache::rows_view(page@),
                        ename,
                    ));
                    assert(store@ == cache::upsert_results_model(
                        cache::register_engine(m, ename),
                        ename,
                        query@,
                        cache::rows_view(page@),
                        fetched_at as int,
                    ));
                    assert(cache::upsert_results_fits(
                        cache::register_engine(m, ename),
                        ename,
                        query@,
                        cache::rows_view(page@),
                    ));
                }
                Ok(search_results)
            },
        }
    } else {
        proof {
            assert(start + count <= cached.len());
        }
        Ok(search_results)
    }
}

/// The image twin of `fetch_or_cache_result`: serve the window from the
/// cached image rows and, only when the cache falls short, perform one
/// live image fetch, persist it, and append the whole page as cache-miss
/// results, all under the caller's `engine_name`.
pub fn fetch_or_cache_image<E: engines::ImageEngine>(
    store: &mut cache::ResultStore,
    engine: E,
    engine_name: &str,
    query: String,
    start: usize,
    count: usize,
) -> (r: Result<Vec<ImageResult>, FetchError>)
    requires
        old(store).wf(),
        start + count <= usize::MAX,
    ensures
        final(store).wf(),
        fetch_or_cache_image_post(
            old(store)@,
            engine_name@,
            query@,
            start as int,
            count as int,
            r,
            final(store)@,
        ),
{
    let ghost m = store@;
    let ghost ename = engine_name@;
    let mut search_images: Vec<ImageResult> = Vec::new();
    let engine_id = match store.get_engine_id(engine_name) {
        Ok(id) => id,
        Err(e) => {
            return Err(FetchError::Store(e));
        },
    };
    proof {
        assert(cache::find_engine(m.engines, ename) is Some || m.engines.len()
            < cache::STORE_CAP);
        cache::lemma_register_engine_wf(m, ename);
    }
    let ghost m1 = store@;
    // read the rows already cached for this (engine, query)
    let q_opt = store.get_query(query.as_str(), engine_id);
    let cached_rows = match &q_opt {
        Some(query_row) => store.get_images_for_query(query_row.id),
        None => Vec::new(),
    };
    let ghost cached = cached_images_for(m, ename, query@);
    proof {
        match q_opt {
            Some(qr) => {
                let i = cache::find_query(m.queries, query@, cache::engine_id_in(m, ename));
                assert(i is Some);
                assert(cache::cached_images_of(m1, qr.id as int) == cache::cached_images_of(
                    m,
                    qr.id as int,
                ));
                assert(cache::images_view(cached_rows@) == cached);
            },
            None => {
                assert(cache::images_view(cached_rows@) =~= Seq::<cache::ImageModel>::empty());
            },
        }
    }
    let cached_count = cached_rows.len();
    let needed_end = start + count;
    let lo = if start < cached_count {
        start
    } else {
        cached_count
    };
    let hi = if cached_count < needed_end {
        cached_count
    } else {
        needed_end
    };
    let ghost hits = img_hits_of(cached, start as int, count as int, ename);
    proof {
        assert(window_of(cached, start as int, count as int) == cached.subrange(
            lo as int,
            hi as int,
        ));
        assert(hits.len() == hi - lo);
        assert(hits.take(0) =~= Seq::<ImageResultModel>::empty());
        assert(ir_view(search_images@) =~= Seq::<ImageResultModel>::empty());
    }
    // serve the covered part of the window as cache hits
    let mut i: usize = lo;
    while i < hi
        invariant
            lo <= i <= hi <= cached_rows@.len(),
            cached == cache::images_view(cached_rows@),
            hits == img_hits_of(cached, start as int, count as int, ename),
            hits.len() == hi - lo,
            window_of(cached, start as int, count as int) == cached.subrange(
                lo as int,
                hi as int,
            ),
            engine_name@ == ename,
            ir_view(search_images@) == hits.take(i - lo),
        decreases hi - i,
    {
        let row = &cached_rows[i];
        let mut en: Vec<String> = Vec::new();
        en.push(engine_name.to_owned());
        let newrow = ImageResult {
            url: row.url.clone(),
            title: row.title.clone(),
            engines: en,
            cached: true,
        };
        proof {
            assert(names_view(newrow.engines@) =~= seq![ename]);
            assert(newrow@ =~= hit_img_model(cached[i as int], ename));
        }
        let ghost gn = newrow;
        let ghost prev = search_images@;
        search_images.push(newrow);
        proof {
            assert(search_images@ == prev.push(gn));
            assert(ir_view(prev).len() == prev.len());
            assert forall|w: int| 0 <= w < prev.len() + 1 implies ir_view(search_images@)[w]
                == hits.take(i + 1 - lo)[w] by {
                if w < prev.len() {
                    assert(prev.push(gn)[w] == prev[w]);
                    assert(ir_view(prev)[w] == hits.take(i - lo)[w]);
                } else {
                    assert(prev.push(gn)[w] == gn);
                    assert(hits[i - lo] == hit_img_model(
                        window_of(cached, start as int, count as int)[i - lo],
                        ename,
                    ));
                    assert(window_of(cached, start as int, count as int)[i - lo]
                        == cached[i as int]);
                }
            }
            assert(ir_view(search_images@) =~= hits.take(i + 1 - lo));
        }
        i += 1;
    }
    proof {
        assert(hits.take(hi - lo) =~= hits);
    }
    if cached_count < needed_end {
        // the cache falls short: one live fetch
        let page = match engine.search_images(query.as_str()) {
            Ok(p) => p,
            Err(e) => {
                return Err(FetchError::Engine(e));
            },
        };
        let fetched_at = now_timestamp();
        let entries = cache::clone_image_rows(&page);
        match store.upsert_query_with_images(engine_name, query.as_str(), entries, fetched_at) {
            Err(e) => {
                return Err(FetchError::Store(e));
            },
            Ok(_query_id) => {
                // every entry of the fresh page is a cache-miss result
                let ghost misses = img_misses_of(cache::images_view(page@), ename);
                let n2 = page.len();
                proof {
                    assert(misses.take(0) =~= Seq::<ImageResultModel>::empty());
                    assert(hits + misses.take(0) =~= hits);
                }
                let mut j: usize = 0;
                while j < n2
                    invariant
                        n2 == page@.len(),
                        misses == img_misses_of(cache::images_view(page@), ename),
                        misses.len() == n2,
                        engine_name@ == ename,
                        0 <= j <= n2,
                        ir_view(search_images@) == hits + misses.take(j as int),
                        hits.len() + j == ir_view(search_images@).len(),
                    decreases n2 - j,
                {
                    let row = &page[j];
                    let mut en: Vec<String> = Vec::new();
                    en.push(engine_name.to_owned());
                    let newrow = ImageResult {
                        url: row.url.clone(),
                        title: row.title.clone(),
                                    engines: en,
                        cached: false,
                    };
                    proof {
                        assert(names_view(newrow.engines@) =~= seq![ename]);
                        assert(newrow@ =~= miss_img_model(cache::images_view(page@)[j as int], ename));
                        assert(misses[j as int] == miss_img_model(
                            cache::images_view(page@)[j as int],
                            ename,
                        ));
                    }
                    let ghost gn = newrow;
                    let ghost prev = search_images@;
                    search_images.push(newrow);
                    proof {
                        assert(search_images@ == prev.push(gn));
                        assert(ir_view(prev).len() == prev.len());
                        assert forall|w: int|
                            0 <= w < prev.len() + 1 implies ir_view(search_images@)[w] == (hits
                            + misses.take(j + 1))[w] by {
                            if w < prev.len() {
                                assert(prev.push(gn)[w] == prev[w]);
                                assert(ir_view(prev)[w] == (hits + misses.take(j as int))[w]);
                                if w < hits.len() {
                                    assert((hits + misses.take(j as int))[w] == hits[w]);
                                    assert((hits + misses.take(j + 1))[w] == hits[w]);
                                } else {
                                    assert((hits + misses.take(j as int))[w] == misses.take(
                                        j as int,
                                    )[w - hits.len()]);
                                    assert((hits + misses.take(j + 1))[w] == misses.take(j + 1)[w
                                        - hits.len()]);
                                }
                            } else {
                                assert(prev.push(gn)[w] == gn);
                                assert((hits + misses.take(j + 1))[w] == misses.take(j + 1)[w
                                    - hits.len()]);
                                assert(misses.take(j + 1)[j as int] == misses[j as int]);
                            }
                        }
                        assert(ir_view(search_images@) =~= hits + misses.take(j + 1));
                    }
                    j += 1;
                }
                proof {
                    assert(misses.take(n2 as int) =~= misses);
                    assert(ir_view(search_images@) == hits + img_misses_of(
                        cache::images_view(page@),
                        ename,
                    ));
                    assert(store@ == cache::upsert_images_model(
                        cache::register_engine(m, ename),
                        ename,
                        query@,
                        cache::images_view(page@),
                        fetched_at as int,
                    ));
                    assert(cache::upsert_images_fits(
                        cache::register_engine(m, ename),
                        ename,
                        query@,
                        cache::images_view(page@),
                    ));
                }
                Ok(search_images)
            },
        }
    } else {
        proof {
            assert(start + count <= cached.len());
        }
        Ok(search_images)
    }
}

/// The flattened output of the successful tasks, in task order; a failed
/// task contributes nothing.
pub open spec fn successes_flat(s: Seq<Option<Vec<SearchResult>>>) -> Seq<SearchModel>
    decreases s.len(),
{
    if s.len() == 0 {
        Seq::empty()
    } else {
        successes_flat(s.drop_last()) + (match s.last() {
            Some(v) => sr_view(v@),
            None => Seq::empty(),
        })
    }
}

/// The image twin of `successes_flat`.
pub open spec fn img_successes_flat(s: Seq<Option<Vec<ImageResult>>>) -> Seq<ImageResultModel>
    decreases s.len(),
{
    if s.len() == 0 {
        Seq::empty()
    } else {
        img_successes_flat(s.drop_last()) + (match s.last() {
            Some(v) => ir_view(v@),
            None => Seq::empty(),
        })
    }
}

/// Clone a list of search results, field for field.
fn clone_search_results(v: &Vec<SearchResult>) -> (r: Vec<SearchResult>)
    ensures
        sr_view(r@) == sr_view(v@),
{
    let mut r: Vec<SearchResult> = Vec::new();
    let n = v.len();
    let mut t: usize = 0;
    while t < n
        invariant
            n == v@.len(),
            0 <= t <= n,
            r@.len() == t,
            forall|k: int| 0 <= k < t ==> (#[trigger] r@[k])@ == v@[k]@,
        decreases n - t,
    {
        let nv = SearchResult {
            url: v[t].url.clone(),
            title: v[t].title.clone(),
            description: v[t].description.clone(),
            engines: merge::clone_names(&v[t].engines),
            cached: v[t].cached,
        };
        proof {
            assert(nv@ =~= v@[t as int]@);
        }
        let ghost gnv = nv;
        let ghost prev = r@;
        r.push(nv);
        proof {
            assert(r@ == prev.push(gnv));
            assert forall|k: int| 0 <= k < t + 1 implies (#[trigger] r@[k])@ == v@[k]@ by {
                if k < t {
                    assert(prev.push(gnv)[k] == prev[k]);
                } else {
                    assert(prev.push(gnv)[k] == gnv);
                }
            }
        }
        t += 1;
    }
    proof {
        assert forall|k: int| 0 <= k < n implies sr_view(r@)[k] == sr_view(v@)[k] by {
            assert(r@[k]@ == v@[k]@);
        }
        assert(sr_view(r@) =~= sr_view(v@));
    }
    r
}

/// Clone a list of image results, field for field.
fn clone_image_results(v: &Vec<ImageResult>) -> (r: Vec<ImageResult>)
    ensures
        ir_view(r@) == ir_view(v@),
{
    let mut r: Vec<ImageResult> = Vec::new();
    let n = v.len();
    let mut t: usize = 0;
    while t < n
        invariant
            n == v@.len(),
            0 <= t <= n,
            r@.len() == t,
            forall|k: int| 0 <= k < t ==> (#[trigger] r@[k])@ == v@[k]@,
        decreases n - t,
    {
        let nv = ImageResult {
            url: v[t].url.clone(),
            title: v[t].title.clone(),
            engines: merge::clone_names(&v[t].engines),
            cached: v[t].cached,
        };
        proof {
            assert(nv@ =~= v@[t as int]@);
        }
        let ghost gnv = nv;
        let ghost prev = r@;
        r.push(nv);
        proof {
            assert(r@ == prev.push(gnv));
            assert forall|k: int| 0 <= k < t + 1 implies (#[trigger] r@[k])@ == v@[k]@ by {
                if k < t {
                    assert(prev.push(gnv)[k] == prev[k]);
                } else {
                    assert(prev.push(gnv)[k] == gnv);
                }
            }
        }
        t += 1;
    }
    proof {
        assert forall|k: int| 0 <= k < n implies ir_view(r@)[k] == ir_view(v@)[k] by {
            assert(r@[k]@ == v@[k]@);
        }
        assert(ir_view(r@) =~= ir_view(v@));
    }
    r
}

/// Decide a text-search call from its per-engine task outcomes. A failed
/// task (`None`) is excluded without aborting the call; if the overall
/// deadline fired the whole call fails with `Timeouts` and every outcome
/// is discarded; if every task failed the call fails with
/// `AllEnginesFailed`; otherwise the flattened union of the successful
/// tasks' lists is merged and returned.
pub fn search_engine_results(outcomes: Vec<Option<Vec<SearchResult>>>, timed_out: bool) -> (r:
    Result<Vec<SearchResult>, FetchError>)
    ensures
        timed_out ==> r matches Err(FetchError::Timeouts),
        (!timed_out && (forall|i: int|
            0 <= i < outcomes@.len() ==> (#[trigger] outcomes@[i]) is None)) ==> r matches Err(
            FetchError::AllEnginesFailed,
        ),
        (!timed_out && (exists|i: int| 0 <= i < outcomes@.len() && (#[trigger] outcomes@[i])
            is Some)) ==> (r matches Ok(out) && sr_view(out@) == merge::merged(
            successes_flat(outcomes@),
        )),
{
    if timed_out {
        return Err(FetchError::Timeouts);
    }
    let mut flat: Vec<SearchResult> = Vec::new();
    let mut any_success = false;
    let n = outcomes.len();
    proof {
        assert(outcomes@.take(0) =~= Seq::<Option<Vec<SearchResult>>>::empty());
        assert(sr_view(flat@) =~= Seq::<SearchModel>::empty());
    }
    let mut i: usize = 0;
    while i < n
        invariant
            n == outcomes@.len(),
            0 <= i <= n,
            sr_view(flat@) == successes_flat(outcomes@.take(i as int)),
            any_success <==> exists|j: int|
                0 <= j < i && (#[trigger] outcomes@[j]) is Some,
        decreases n - i,
    {
        proof {
            assert(outcomes@.take(i + 1).drop_last() =~= outcomes@.take(i as int));
            assert(outcomes@.take(i + 1).last() == outcomes@[i as int]);
        }
        match &outcomes[i] {
            Some(rows) => {
                any_success = true;
                let ghost prev_flat = flat@;
                let mut cloned = clone_search_results(rows);
                let ghost cv = cloned@;
                flat.append(&mut cloned);
                proof {
                    assert(flat@ == prev_flat + cv);
                    assert forall|w: int| 0 <= w < flat@.len() implies sr_view(flat@)[w]
                        == (sr_view(prev_flat) + sr_view(cv))[w] by {
                        if w < prev_flat.len() {
                            assert((prev_flat + cv)[w] == prev_flat[w]);
                        } else {
                            assert((prev_flat + cv)[w] == cv[w - prev_flat.len()]);
                        }
                    }
                    assert(sr_view(flat@) =~= sr_view(prev_flat) + sr_view(cv));
                    assert(sr_view(flat@) =~= successes_flat(outcomes@.take(i + 1)));
                }
                i += 1;
            },
            None => {
                proof {
                    assert(successes_flat(outcomes@.take(i + 1)) =~= successes_flat(
                        outcomes@.take(i as int),
                    ));
                }
                i += 1;
            },
        }
    }
    if !any_success {
        return Err(FetchError::AllEnginesFailed);
    }
    proof {
        assert(outcomes@.take(n as int) =~= outcomes@);
    }
    Ok(merge::merge_results(flat))
}

/// The image twin of `search_engine_results`: decide an image-search
/// call from its per-engine task outcomes.
pub fn search_engine_images(outcomes: Vec<Option<Vec<ImageResult>>>, timed_out: bool) -> (r:
    Result<Vec<ImageResult>, FetchError>)
    ensures
        timed_out ==> r matches Err(FetchError::Timeouts),
        (!timed_out && (forall|i: int|
            0 <= i < outcomes@.len() ==> (#[trigger] outcomes@[i]) is None)) ==> r matches Err(
            FetchError::AllEnginesFailed,
        ),
        (!timed_out && (exists|i: int| 0 <= i < outcomes@.len() && (#[trigger] outcomes@[i])
            is Some)) ==> (r matches Ok(out) && ir_view(out@) == merge::merged_img(
            img_successes_flat(outcomes@),
        )),
{
    if timed_out {
        return Err(FetchError::Timeouts);
    }
    let mut flat: Vec<ImageResult> = Vec::new();
    let mut any_success = false;
    let n = outcomes.len();
    proof {
        assert(outcomes@.take(0) =~= Seq::<Option<Vec<ImageResult>>>::empty());
        assert(ir_view(flat@) =~= Seq::<ImageResultModel>::empty());
    }
    let mut i: usize = 0;
    while i < n
        invariant
            n == outcomes@.len(),
            0 <= i <= n,
            ir_view(flat@) == img_successes_flat(outcomes@.take(i as int)),
            any_success <==> exists|j: int|
                0 <= j < i && (#[trigger] outcomes@[j]) is Some,
        decreases n - i,
    {
        proof {
            assert(outcomes@.take(i + 1).drop_last() =~= outcomes@.take(i as int));
            assert(outcomes@.take(i + 1).last() == outcomes@[i as int]);
        }
        match &outcomes[i] {
            Some(rows) => {
                any_success = true;
                let ghost prev_flat = flat@;
                let mut cloned = clone_image_results(rows);
                let ghost cv = cloned@;
                flat.append(&mut cloned);
                proof {
                    assert(flat@ == prev_flat + cv);
                    assert forall|w: int| 0 <= w < flat@.len() implies ir_view(flat@)[w]
                        == (ir_view(prev_flat) + ir_view(cv))[w] by {
                        if w < prev_flat.len() {
                            assert((prev_flat + cv)[w] == prev_flat[w]);
                        } else {
                            assert((prev_flat + cv)[w] == cv[w - prev_flat.len()]);
                        }
                    }
                    assert(ir_view(flat@) =~= ir_view(prev_flat) + ir_view(cv));
                    assert(ir_view(flat@) =~= img_successes_flat(outcomes@.take(i + 1)));
                }
                i += 1;
            },
            None => {
                proof {
                    assert(img_successes_flat(outcomes@.take(i + 1)) =~= img_successes_flat(
                        outcomes@.take(i as int),
                    ));
                }
                i += 1;
            },
        }
    }
    if !any_success {
        return Err(FetchError::AllEnginesFailed);
    }
    proof {
        assert(outcomes@.take(n as int) =~= outcomes@);
    }
    Ok(merge::merge_images(flat))
}

} // verus!
