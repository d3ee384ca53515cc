//! The result store: an in-memory relational cache of search results keyed
//! by (engine, query text), with globally unique result URLs, append-only
//! per-query link lists at contiguous positions, and atomic page upserts.
//!
//! Every operation is specified against a functional model (`StoreModel`),
//! so the store's laws — idempotent upserts, append-only ordering, global
//! dedup — are proved once about the model and carry over to the code.
use vstd::prelude::*;


verus! {

/// Upper bound on the number of rows of any one table, so that row ids and
/// link positions always fit in the schema's 64-bit integers.
pub const STORE_CAP: usize = 0x4000_0000;

/// The store failed to make room for a new row.
#[derive(Debug, Clone, Copy, PartialEq, Eq, Structural)]
pub enum StoreError {
    Full,
}

/// A search result row: the URL is its global identity.
#[derive(Debug, Clone)]
pub struct ResultRow {
    pub url: String,
    pub title: String,
    pub description: String,
}

/// An image result row: the URL is its global identity.
#[derive(Debug, Clone)]
pub struct ImagesRow {
    pub url: String,
    pub title: String,
}

/// An engine row: a registered engine name and its id.
#[derive(Debug, Clone)]
pub struct EngineRow {
    pub id: i64,
    pub name: String,
}

/// A query row: a (text, engine) pair and the time of its first fetch.
#[derive(Debug, Clone)]
pub struct QueryRow {
    pub id: i64,
    pub query: String,
    pub engine_id: i64,
    pub fetched_at: i64,
}

/// A (query, result) association row.
#[derive(Debug, Clone)]
pub struct QueryResultRow {
    pub query_id: i64,
    pub result_id: i64,
}

/// A (query, image) association row.
#[derive(Debug, Clone)]
pub struct QueryImageRow {
    pub query_id: i64,
    pub image_id: i64,
}

/// Mathematical image of a result row.
#[verifier::ext_equal]
pub ghost struct RowModel {
    pub url: Seq<char>,
    pub title: Seq<char>,
    pub description: Seq<char>,
}

/// Mathematical image of an image row.
#[verifier::ext_equal]
pub ghost struct ImageModel {
    pub url: Seq<char>,
    pub title: Seq<char>,
}

/// A link from a query to the row with id `target_id`, at `position`.
#[verifier::ext_equal]
pub ghost struct LinkModel {
    pub target_id: int,
    pub position: int,
}

/// Mathematical image of a query row together with its link lists,
/// each kept in ascending position order.
#[verifier::ext_equal]
pub ghost struct QueryModel {
    pub text: Seq<char>,
    pub engine_id: int,
    pub fetched_at: int,
    pub result_links: Seq<LinkModel>,
    pub image_links: Seq<LinkModel>,
}

/// Mathematical image of the whole store. Row ids are positions plus one.
#[verifier::ext_equal]
pub ghost struct StoreModel {
    pub engines: Seq<Seq<char>>,
    pub queries: Seq<QueryModel>,
    pub results: Seq<RowModel>,
    pub images: Seq<ImageModel>,
}

impl View for ResultRow {
    type V = RowModel;

    open spec fn view(&self) -> RowModel {
        RowModel { url: self.url@, title: self.title@, description: self.description@ }
    }
}

impl View for ImagesRow {
    type V = ImageModel;

    open spec fn view(&self) -> ImageModel {
        ImageModel { url: self.url@, title: self.title@ }
    }
}

/// Views of a sequence of result rows.
pub open spec fn rows_view(s: Seq<ResultRow>) -> Seq<RowModel> {
    s.map_values(|r: ResultRow| r@)
}

/// Views of a sequence of image rows.
pub open spec fn images_view(s: Seq<ImagesRow>) -> Seq<ImageModel> {
    s.map_values(|r: ImagesRow| r@)
}

struct Link {
    target_id: i64,
    position: i64,
}

impl View for Link {
    type V = LinkModel;

    closed spec fn view(&self) -> LinkModel {
        LinkModel { target_id: self.target_id as int, position: self.position as int }
    }
}

struct StoredQuery {
    text: String,
    engine_id: i64,
    fetched_at: i64,
    result_links: Vec<Link>,
    image_links: Vec<Link>,
}

impl View for StoredQuery {
    type V = QueryModel;

    closed spec fn view(&self) -> QueryModel {
        QueryModel {
            text: self.text@,
            engine_id: self.engine_id as int,
            fetched_at: self.fetched_at as int,
            result_links: self.result_links@.map_values(|l: Link| l@),
            image_links: self.image_links@.map_values(|l: Link| l@),
        }
    }
}

/// The durable store: engines, queries, globally deduplicated result and
/// image rows, and per-query ordered link lists.
pub struct ResultStore {
    engines: Vec<String>,
    queries: Vec<StoredQuery>,
    results: Vec<ResultRow>,
    images: Vec<ImagesRow>,
}

impl View for ResultStore {
    type V = StoreModel;

    closed spec fn view(&self) -> StoreModel {
        StoreModel {
            engines: self.engines@.map_values(|s: String| s@),
            queries: self.queries@.map_values(|q: StoredQuery| q@),
            results: rows_view(self.results@),
            images: images_view(self.images@),
        }
    }
}

// ---------------------------------------------------------------------------
// The functional model of each operation.
// ---------------------------------------------------------------------------

/// Index of the first engine named `name`, if registered.
pub open spec fn find_engine(engines: Seq<Seq<char>>, name: Seq<char>) -> Option<int>
    decreases engines.len(),
{
    if engines.len() == 0 {
        None
    } else {
        match find_engine(engines.drop_last(), name) {
            Some(i) => Some(i),
            None => if engines.last() == name {
                Some(engines.len() - 1)
            } else {
                None
            },
        }
    }
}

/// What `find_engine` points at bears the name; everything before it does
/// not; `None` means no row does.
pub proof fn lemma_find_engine(engines: Seq<Seq<char>>, name: Seq<char>)
    ensures
        match find_engine(engines, name) {
            Some(i) => 0 <= i < engines.len() && engines[i] == name && (forall|j: int|
                0 <= j < i ==> engines[j] != name),
            None => forall|j: int| 0 <= j < engines.len() ==> engines[j] != name,
        },
    decreases engines.len(),
{
    if engines.len() > 0 {
        lemma_find_engine(engines.drop_last(), name);
        assert(forall|j: int|
            0 <= j < engines.len() - 1 ==> engines[j] == engines.drop_last()[j]);
    }
}

/// Index of the first query row for `(text, engine_id)`, if present.
pub open spec fn find_query(queries: Seq<QueryModel>, text: Seq<char>, engine_id: int) -> Option<
    int,
>
    decreases queries.len(),
{
    if queries.len() == 0 {
        None
    } else {
        match find_query(queries.drop_last(), text, engine_id) {
            Some(i) => Some(i),
            None => if queries.last().text == text && queries.last().engine_id == engine_id {
                Some(queries.len() - 1)
            } else {
                None
            },
        }
    }
}

/// The characterization of `find_query` as a first match.
pub proof fn lemma_find_query(queries: Seq<QueryModel>, text: Seq<char>, engine_id: int)
    ensures
        match find_query(queries, text, engine_id) {
            Some(i) => 0 <= i < queries.len() && queries[i].text == text
                && queries[i].engine_id == engine_id && (forall|j: int|
                0 <= j < i ==> !((#[trigger] queries[j]).text == text && queries[j].engine_id
                    == engine_id)),
            None => forall|j: int|
                0 <= j < queries.len() ==> !((#[trigger] queries[j]).text == text
                    && queries[j].engine_id == engine_id),
        },
    decreases queries.len(),
{
    if queries.len() > 0 {
        lemma_find_query(queries.drop_last(), text, engine_id);
        assert(forall|j: int|
            0 <= j < queries.len() - 1 ==> queries[j] == queries.drop_last()[j]);
    }
}

/// Index of the first result row with the given URL, if present.
pub open spec fn find_result(results: Seq<RowModel>, url: Seq<char>) -> Option<int>
    decreases results.len(),
{
    if results.len() == 0 {
        None
    } else {
        match find_result(results.drop_last(), url) {
            Some(i) => Some(i),
            None => if results.last().url == url {
                Some(results.len() - 1)
            } else {
                None
            },
        }
    }
}

/// The characterization of `find_result` as a first match.
pub proof fn lemma_find_result(results: Seq<RowModel>, url: Seq<char>)
    ensures
        match find_result(results, url) {
            Some(i) => 0 <= i < results.len() && results[i].url == url && (forall|j: int|
                0 <= j < i ==> (#[trigger] results[j]).url != url),
            None => forall|j: int| 0 <= j < results.len() ==> (#[trigger] results[j]).url != url,
        },
    decreases results.len(),
{
    if results.len() > 0 {
        lemma_find_result(results.drop_last(), url);
        assert(forall|j: int|
            0 <= j < results.len() - 1 ==> results[j] == results.drop_last()[j]);
    }
}

/// Index of the first image row with the given URL, if present.
pub open spec fn find_image(images: Seq<ImageModel>, url: Seq<char>) -> Option<int>
    decreases images.len(),
{
    if images.len() == 0 {
        None
    } else {
        match find_image(images.drop_last(), url) {
            Some(i) => Some(i),
            None => if images.last().url == url {
                Some(images.len() - 1)
            } else {
                None
            },
        }
    }
}

/// The characterization of `find_image` as a first match.
pub proof fn lemma_find_image(images: Seq<ImageModel>, url: Seq<char>)
    ensures
        match find_image(images, url) {
            Some(i) => 0 <= i < images.len() && images[i].url == url && (forall|j: int|
                0 <= j < i ==> (#[trigger] images[j]).url != url),
            None => forall|j: int| 0 <= j < images.len() ==> (#[trigger] images[j]).url != url,
        },
    decreases images.len(),
{
    if images.len() > 0 {
        lemma_find_image(images.drop_last(), url);
        assert(forall|j: int|
            0 <= j < images.len() - 1 ==> images[j] == images.drop_last()[j]);
    }
}

/// The store after registering `name`: unchanged if known, else appended.
pub open spec fn register_engine(m: StoreModel, name: Seq<char>) -> StoreModel {
    match find_engine(m.engines, name) {
        Some(_) => m,
        None => StoreModel { engines: m.engines.push(name), ..m },
    }
}

/// The id `register_engine` hands out for `name`.
pub open spec fn engine_id_in(m: StoreModel, name: Seq<char>) -> int {
    match find_engine(m.engines, name) {
        Some(i) => i + 1,
        None => m.engines.len() as int + 1,
    }
}

/// The store after resolving-or-creating the query `(text, engine_id)`.
pub open spec fn ensure_query(m: StoreModel, text: Seq<char>, engine_id: int, t: int) -> StoreModel {
    match find_query(m.queries, text, engine_id) {
        Some(_) => m,
        None => StoreModel {
            queries: m.queries.push(
                QueryModel {
                    text,
                    engine_id,
                    fetched_at: t,
                    result_links: Seq::empty(),
                    image_links: Seq::empty(),
                },
            ),
            ..m
        },
    }
}

/// The id `ensure_query` hands out for `(text, engine_id)`.
pub open spec fn query_id_in(m: StoreModel, text: Seq<char>, engine_id: int) -> int {
    match find_query(m.queries, text, engine_id) {
        Some(i) => i + 1,
        None => m.queries.len() as int + 1,
    }
}

/// The result table after a dedup-insert of `row`: a no-op if its URL is
/// already present (the first insert wins title and description).
pub open spec fn add_result(results: Seq<RowModel>, row: RowModel) -> Seq<RowModel> {
    match find_result(results, row.url) {
        Some(_) => results,
        None => results.push(row),
    }
}

/// The id a dedup-insert of a row with this URL resolves to.
pub open spec fn result_id_for(results: Seq<RowModel>, url: Seq<char>) -> int {
    match find_result(results, url) {
        Some(i) => i + 1,
        None => results.len() as int + 1,
    }
}

/// The image table after a dedup-insert of `row`.
pub open spec fn add_image(images: Seq<ImageModel>, row: ImageModel) -> Seq<ImageModel> {
    match find_image(images, row.url) {
        Some(_) => images,
        None => images.push(row),
    }
}

/// The id a dedup-insert of an image with this URL resolves to.
pub open spec fn image_id_for(images: Seq<ImageModel>, url: Seq<char>) -> int {
    match find_image(images, url) {
        Some(i) => i + 1,
        None => images.len() as int + 1,
    }
}

/// Whether some link of `links` already points at `target`.
pub open spec fn has_link(links: Seq<LinkModel>, target: int) -> bool {
    exists|i: int| 0 <= i < links.len() && links[i].target_id == target
}

/// The link list after linking `target` at the next position, the
/// current link count, so positions stay contiguous from zero;
/// a no-op if the target is already linked.
pub open spec fn add_link(links: Seq<LinkModel>, target: int) -> Seq<LinkModel> {
    if has_link(links, target) {
        links
    } else {
        links.push(LinkModel { target_id: target, position: links.len() as int })
    }
}

/// The store after linking result `result_id` to query `query_id` at the
/// query's next position (a no-op if that pair is already linked).
pub open spec fn link_result(m: StoreModel, query_id: int, result_id: int) -> StoreModel {
    let q = m.queries[query_id - 1];
    StoreModel {
        queries: m.queries.update(
            query_id - 1,
            QueryModel { result_links: add_link(q.result_links, result_id), ..q },
        ),
        ..m
    }
}

/// The store after linking image `image_id` to query `query_id`.
pub open spec fn link_image(m: StoreModel, query_id: int, image_id: int) -> StoreModel {
    let q = m.queries[query_id - 1];
    StoreModel {
        queries: m.queries.update(
            query_id - 1,
            QueryModel { image_links: add_link(q.image_links, image_id), ..q },
        ),
        ..m
    }
}

/// One upsert step: dedup-insert the row globally, then link it to the
/// query at the query's next position.
pub open spec fn upsert_result_step(m: StoreModel, query_id: int, row: RowModel) -> StoreModel {
    let id = result_id_for(m.results, row.url);
    link_result(StoreModel { results: add_result(m.results, row), ..m }, query_id, id)
}

/// One image upsert step.
pub open spec fn upsert_image_step(m: StoreModel, query_id: int, row: ImageModel) -> StoreModel {
    let id = image_id_for(m.images, row.url);
    link_image(StoreModel { images: add_image(m.images, row), ..m }, query_id, id)
}

/// Upsert the entries in order: each not-yet-linked entry is linked at
/// the query's link count at that moment, so positions stay contiguous.
pub open spec fn upsert_result_entries(
    m: StoreModel,
    query_id: int,
    entries: Seq<RowModel>,
) -> StoreModel
    decreases entries.len(),
{
    if entries.len() == 0 {
        m
    } else {
        upsert_result_entries(
            upsert_result_step(m, query_id, entries[0]),
            query_id,
            entries.drop_first(),
        )
    }
}

/// Upsert the image entries in order.
pub open spec fn upsert_image_entries(
    m: StoreModel,
    query_id: int,
    entries: Seq<ImageModel>,
) -> StoreModel
    decreases entries.len(),
{
    if entries.len() == 0 {
        m
    } else {
        upsert_image_entries(
            upsert_image_step(m, query_id, entries[0]),
            query_id,
            entries.drop_first(),
        )
    }
}

/// The query id an upsert for `(engine, text)` resolves to.
pub open spec fn upsert_qid(m: StoreModel, engine: Seq<char>, text: Seq<char>) -> int {
    query_id_in(register_engine(m, engine), text, engine_id_in(m, engine))
}

/// The whole-store effect of `upsert_query_with_results`: resolve or create
/// the engine and the query, then append the page's not-yet-linked entries
/// after the query's current links, keeping positions contiguous from zero.
pub open spec fn upsert_results_model(
    m: StoreModel,
    engine: Seq<char>,
    text: Seq<char>,
    entries: Seq<RowModel>,
    t: int,
) -> StoreModel {
    let m1 = register_engine(m, engine);
    let m2 = ensure_query(m1, text, engine_id_in(m, engine), t);
    upsert_result_entries(m2, upsert_qid(m, engine, text), entries)
}

/// The whole-store effect of `upsert_query_with_images`.
pub open spec fn upsert_images_model(
    m: StoreModel,
    engine: Seq<char>,
    text: Seq<char>,
    entries: Seq<ImageModel>,
    t: int,
) -> StoreModel {
    let m1 = register_engine(m, engine);
    let m2 = ensure_query(m1, text, engine_id_in(m, engine), t);
    upsert_image_entries(m2, upsert_qid(m, engine, text), entries)
}

/// How many of the page's entries would create a new result row: those
/// whose URL is neither stored already nor repeated earlier in the page.
pub open spec fn fresh_count(results: Seq<RowModel>, entries: Seq<RowModel>) -> int
    decreases entries.len(),
{
    if entries.len() == 0 {
        0
    } else {
        fresh_count(results, entries.drop_last()) + (
        if find_result(results, entries.last().url) is None && (forall|j: int|
            0 <= j < entries.len() - 1 ==> (#[trigger] entries[j]).url != entries.last().url) {
            1int
        } else {
            0int
        })
    }
}

/// The fresh count is never negative.
pub proof fn lemma_fresh_count_nonneg(results: Seq<RowModel>, entries: Seq<RowModel>)
    ensures
        0 <= fresh_count(results, entries),
    decreases entries.len(),
{
    if entries.len() > 0 {
        lemma_fresh_count_nonneg(results, entries.drop_last());
    }
}

/// A prefix of the page never counts more fresh URLs than the whole page.
pub proof fn lemma_fresh_count_take_bound(results: Seq<RowModel>, entries: Seq<RowModel>, i: int)
    requires
        0 <= i <= entries.len(),
    ensures
        fresh_count(results, entries.take(i)) <= fresh_count(results, entries),
    decreases entries.len() - i,
{
    if i == entries.len() {
        assert(entries.take(i) =~= entries);
    } else {
        assert(entries.take(i + 1).drop_last() =~= entries.take(i));
        lemma_fresh_count_take_bound(results, entries, i + 1);
    }
}

/// The image twin of `fresh_count`.
pub open spec fn fresh_count_img(images: Seq<ImageModel>, entries: Seq<ImageModel>) -> int
    decreases entries.len(),
{
    if entries.len() == 0 {
        0
    } else {
        fresh_count_img(images, entries.drop_last()) + (
        if find_image(images, entries.last().url) is None && (forall|j: int|
            0 <= j < entries.len() - 1 ==> (#[trigger] entries[j]).url != entries.last().url) {
            1int
        } else {
            0int
        })
    }
}

/// The image fresh count is never negative.
pub proof fn lemma_fresh_count_img_nonneg(images: Seq<ImageModel>, entries: Seq<ImageModel>)
    ensures
        0 <= fresh_count_img(images, entries),
    decreases entries.len(),
{
    if entries.len() > 0 {
        lemma_fresh_count_img_nonneg(images, entries.drop_last());
    }
}

/// A prefix never counts more fresh image URLs than the whole page.
pub proof fn lemma_fresh_count_img_take_bound(
    images: Seq<ImageModel>,
    entries: Seq<ImageModel>,
    i: int,
)
    requires
        0 <= i <= entries.len(),
    ensures
        fresh_count_img(images, entries.take(i)) <= fresh_count_img(images, entries),
    decreases entries.len() - i,
{
    if i == entries.len() {
        assert(entries.take(i) =~= entries);
    } else {
        assert(entries.take(i + 1).drop_last() =~= entries.take(i));
        lemma_fresh_count_img_take_bound(images, entries, i + 1);
    }
}

/// Whether an upsert of `entries` fits under the store's capacity. Only
/// entries that would create a new row count against it: a URL already
/// stored, or repeated earlier in the page, adds nothing — so a retried
/// upsert of an already-cached page always fits. When the page does not
/// fit, the store is left unchanged and the upsert fails.
pub open spec fn upsert_results_fits(
    m: StoreModel,
    engine: Seq<char>,
    text: Seq<char>,
    entries: Seq<RowModel>,
) -> bool {
    &&& (find_engine(m.engines, engine) is Some || m.engines.len() < STORE_CAP)
    &&& (find_query(m.queries, text, engine_id_in(m, engine)) is Some || m.queries.len()
        < STORE_CAP)
    &&& m.results.len() + fresh_count(m.results, entries) <= STORE_CAP
}

/// Capacity bound for an image upsert.
pub open spec fn upsert_images_fits(
    m: StoreModel,
    engine: Seq<char>,
    text: Seq<char>,
    entries: Seq<ImageModel>,
) -> bool {
    &&& (find_engine(m.engines, engine) is Some || m.engines.len() < STORE_CAP)
    &&& (find_query(m.queries, text, engine_id_in(m, engine)) is Some || m.queries.len()
        < STORE_CAP)
    &&& m.images.len() + fresh_count_img(m.images, entries) <= STORE_CAP
}

/// The rows a link list points at, in link order.
pub open spec fn links_to_rows(links: Seq<LinkModel>, results: Seq<RowModel>) -> Seq<RowModel> {
    links.map_values(|l: LinkModel| results[l.target_id - 1])
}

/// The image rows a link list points at, in link order.
pub open spec fn links_to_images(links: Seq<LinkModel>, images: Seq<ImageModel>) -> Seq<
    ImageModel,
> {
    links.map_values(|l: LinkModel| images[l.target_id - 1])
}

/// The result rows linked to query `query_id`, in stored (position) order;
/// empty for an unknown query id.
pub open spec fn cached_results_of(m: StoreModel, query_id: int) -> Seq<RowModel> {
    if 1 <= query_id <= m.queries.len() {
        links_to_rows(m.queries[query_id - 1].result_links, m.results)
    } else {
        Seq::empty()
    }
}

/// The image rows linked to query `query_id`, in stored order.
pub open spec fn cached_images_of(m: StoreModel, query_id: int) -> Seq<ImageModel> {
    if 1 <= query_id <= m.queries.len() {
        links_to_images(m.queries[query_id - 1].image_links, m.images)
    } else {
        Seq::empty()
    }
}

// ---------------------------------------------------------------------------
// Well-formedness.
// ---------------------------------------------------------------------------

/// A link list is well-formed for a table of `n_targets` rows: targets
/// are distinct valid ids, and positions are contiguous from zero — the
/// link at index `i` sits at position `i`.
pub open spec fn wf_links(links: Seq<LinkModel>, n_targets: int) -> bool {
    &&& forall|i: int, j: int|
        0 <= i < j < links.len() ==> (#[trigger] links[i]).target_id != (
        #[trigger] links[j]).target_id
    &&& forall|i: int| 0 <= i < links.len() ==> 1 <= (#[trigger] links[i]).target_id <= n_targets
    &&& forall|i: int| 0 <= i < links.len() ==> (#[trigger] links[i]).position == i
}

/// The store's invariant: unique engine names, unique (text, engine) query
/// keys referencing valid engines, globally unique result and image URLs,
/// well-formed link lists, and every table under capacity.
pub open spec fn wf_model(m: StoreModel) -> bool {
    &&& m.engines.len() <= STORE_CAP
    &&& m.queries.len() <= STORE_CAP
    &&& m.results.len() <= STORE_CAP
    &&& m.images.len() <= STORE_CAP
    &&& forall|i: int, j: int|
        0 <= i < j < m.engines.len() ==> #[trigger] m.engines[i] != #[trigger] m.engines[j]
    &&& forall|i: int|
        0 <= i < m.queries.len() ==> 1 <= (#[trigger] m.queries[i]).engine_id <= m.engines.len()
    &&& forall|i: int, j: int|
        0 <= i < j < m.queries.len() ==> !((#[trigger] m.queries[i]).text == (
        #[trigger] m.queries[j]).text && m.queries[i].engine_id == m.queries[j].engine_id)
    &&& forall|i: int, j: int|
        0 <= i < j < m.results.len() ==> (#[trigger] m.results[i]).url != (
        #[trigger] m.results[j]).url
    &&& forall|i: int, j: int|
        0 <= i < j < m.images.len() ==> (#[trigger] m.images[i]).url != (
        #[trigger] m.images[j]).url
    &&& forall|i: int|
        0 <= i < m.queries.len() ==> wf_links(
            (#[trigger] m.queries[i]).result_links,
            m.results.len() as int,
        )
    &&& forall|i: int|
        0 <= i < m.queries.len() ==> wf_links(
            (#[trigger] m.queries[i]).image_links,
            m.images.len() as int,
        )
}

// ---------------------------------------------------------------------------
// The invariant is preserved by each model operation.
// ---------------------------------------------------------------------------

/// Registering an engine with room to spare preserves the invariant.
pub proof fn lemma_register_engine_wf(m: StoreModel, name: Seq<char>)
    requires
        wf_model(m),
        find_engine(m.engines, name) is Some || m.engines.len() < STORE_CAP,
    ensures
        wf_model(register_engine(m, name)),
        1 <= engine_id_in(m, name) <= register_engine(m, name).engines.len(),
        register_engine(m, name).queries == m.queries,
        register_engine(m, name).results == m.results,
        register_engine(m, name).images == m.images,
        find_engine(register_engine(m, name).engines, name) == Some(engine_id_in(m, name) - 1),
{
    lemma_find_engine(m.engines, name);
    let mr = register_engine(m, name);
    if find_engine(m.engines, name) is None {
        assert(mr.engines.drop_last() =~= m.engines);
        assert(mr.engines.last() == name);
        assert(find_engine(mr.engines, name) == Some(m.engines.len() as int));
    }
}

/// Creating the query row when absent preserves the invariant.
pub proof fn lemma_ensure_query_wf(m: StoreModel, text: Seq<char>, engine_id: int, t: int)
    requires
        wf_model(m),
        1 <= engine_id <= m.engines.len(),
        find_query(m.queries, text, engine_id) is Some || m.queries.len() < STORE_CAP,
    ensures
        wf_model(ensure_query(m, text, engine_id, t)),
        ensure_query(m, text, engine_id, t).engines == m.engines,
        ensure_query(m, text, engine_id, t).results == m.results,
        ensure_query(m, text, engine_id, t).images == m.images,
        1 <= query_id_in(m, text, engine_id) <= ensure_query(m, text, engine_id, t).queries.len(),
        ensure_query(m, text, engine_id, t).queries[query_id_in(m, text, engine_id) - 1].text
            == text,
        ensure_query(m, text, engine_id, t).queries[query_id_in(m, text, engine_id) - 1].engine_id
            == engine_id,
{
    lemma_find_query(m.queries, text, engine_id);
    let mq = ensure_query(m, text, engine_id, t);
    if find_query(m.queries, text, engine_id) is None {
        assert(mq.queries.drop_last() =~= m.queries);
        assert forall|i: int, j: int| 0 <= i < j < mq.queries.len() implies !((
        #[trigger] mq.queries[i]).text == (#[trigger] mq.queries[j]).text
            && mq.queries[i].engine_id == mq.queries[j].engine_id) by {
            if j == mq.queries.len() - 1 {
                assert(mq.queries[i] == m.queries[i]);
            }
        }
        assert(wf_links(mq.queries[mq.queries.len() - 1].result_links, m.results.len() as int));
        assert(wf_links(mq.queries[mq.queries.len() - 1].image_links, m.images.len() as int));
    }
}

/// A dedup-insert of a row with room to spare preserves the invariant.
pub proof fn lemma_add_result_wf(m: StoreModel, row: RowModel)
    requires
        wf_model(m),
        find_result(m.results, row.url) is Some || m.results.len() < STORE_CAP,
    ensures
        wf_model(StoreModel { results: add_result(m.results, row), ..m }),
        m.results.len() <= add_result(m.results, row).len() <= m.results.len() + 1,
        1 <= result_id_for(m.results, row.url) <= add_result(m.results, row).len(),
{
    lemma_find_result(m.results, row.url);
    let rs = add_result(m.results, row);
    let mr = StoreModel { results: rs, ..m };
    if find_result(m.results, row.url) is None {
        assert(rs.drop_last() =~= m.results);
        assert forall|i: int, j: int| 0 <= i < j < rs.len() implies (#[trigger] rs[i]).url != (
        #[trigger] rs[j]).url by {
            if j == rs.len() - 1 {
                assert(rs[i] == m.results[i]);
            }
        }
    }
    assert forall|i: int| 0 <= i < mr.queries.len() implies wf_links(
        (#[trigger] mr.queries[i]).result_links,
        mr.results.len() as int,
    ) by {
        assert(wf_links(m.queries[i].result_links, m.results.len() as int));
    }
}

/// A dedup-insert of an image with room to spare preserves the invariant.
pub proof fn lemma_add_image_wf(m: StoreModel, row: ImageModel)
    requires
        wf_model(m),
        find_image(m.images, row.url) is Some || m.images.len() < STORE_CAP,
    ensures
        wf_model(StoreModel { images: add_image(m.images, row), ..m }),
        m.images.len() <= add_image(m.images, row).len() <= m.images.len() + 1,
        1 <= image_id_for(m.images, row.url) <= add_image(m.images, row).len(),
{
    lemma_find_image(m.images, row.url);
    let rs = add_image(m.images, row);
    let mr = StoreModel { images: rs, ..m };
    if find_image(m.images, row.url) is None {
        assert(rs.drop_last() =~= m.images);
        assert forall|i: int, j: int| 0 <= i < j < rs.len() implies (#[trigger] rs[i]).url != (
        #[trigger] rs[j]).url by {
            if j == rs.len() - 1 {
                assert(rs[i] == m.images[i]);
            }
        }
    }
    assert forall|i: int| 0 <= i < mr.queries.len() implies wf_links(
        (#[trigger] mr.queries[i]).image_links,
        mr.images.len() as int,
    ) by {
        assert(wf_links(m.queries[i].image_links, m.images.len() as int));
    }
}

/// Linking a valid new target appends at the next position, keeping the
/// list well-formed and its positions contiguous.
pub proof fn lemma_add_link_wf(links: Seq<LinkModel>, n_targets: int, target: int)
    requires
        wf_links(links, n_targets),
        1 <= target <= n_targets,
    ensures
        wf_links(add_link(links, target), n_targets),
        links.len() <= add_link(links, target).len() <= links.len() + 1,
{
    if !has_link(links, target) {
        let nl = LinkModel { target_id: target, position: links.len() as int };
        let out = links.push(nl);
        assert(forall|j: int| 0 <= j < links.len() ==> out[j] == links[j]);
        assert(out[links.len() as int] == nl);
        assert forall|i: int, j: int| 0 <= i < j < out.len() implies (
        #[trigger] out[i]).target_id != (#[trigger] out[j]).target_id by {
            if j == links.len() {
                assert(links[i].target_id != target) by {
                    if links[i].target_id == target {
                        assert(has_link(links, target));
                    }
                }
            }
        }
    }
}

/// A well-formed link list cannot outgrow its target table: its targets
/// are distinct integers drawn from `1..=n_targets`.
pub proof fn lemma_wf_links_len_bound(links: Seq<LinkModel>, n_targets: int)
    requires
        wf_links(links, n_targets),
        n_targets >= 0,
    ensures
        links.len() <= n_targets,
{
    broadcast use vstd::seq_lib::seq_to_set_is_finite;
    broadcast use vstd::set::group_set_axioms;

    let tids = links.map_values(|l: LinkModel| l.target_id);
    assert(tids.no_duplicates()) by {
        assert(forall|i: int, j: int|
            0 <= i < j < links.len() ==> tids[i] != tids[j]);
        assert(forall|i: int, j: int|
            0 <= i < tids.len() && 0 <= j < tids.len() && i != j ==> tids[i] != tids[j]);
    }
    tids.unique_seq_to_set();
    let rng = vstd::set_lib::set_int_range(1, n_targets + 1);
    vstd::set_lib::lemma_int_range(1, n_targets + 1);
    assert(tids.to_set().subset_of(rng)) by {
        assert forall|t: int| tids.to_set().contains(t) implies rng.contains(t) by {
            let i = choose|i: int| 0 <= i < tids.len() && tids[i] == t;
            assert(1 <= links[i].target_id <= n_targets);
        }
    }
    vstd::set_lib::lemma_len_subset(tids.to_set(), rng);
}

/// Linking a valid (query, result) pair preserves the invariant.
pub proof fn lemma_link_result_wf(m: StoreModel, query_id: int, result_id: int)
    requires
        wf_model(m),
        1 <= query_id <= m.queries.len(),
        1 <= result_id <= m.results.len(),
    ensures
        wf_model(link_result(m, query_id, result_id)),
        link_result(m, query_id, result_id).engines == m.engines,
        link_result(m, query_id, result_id).results == m.results,
        link_result(m, query_id, result_id).images == m.images,
        link_result(m, query_id, result_id).queries.len() == m.queries.len(),
{
    let q = m.queries[query_id - 1];
    lemma_add_link_wf(q.result_links, m.results.len() as int, result_id);
    let mo = link_result(m, query_id, result_id);
    assert forall|i: int, j: int| 0 <= i < j < mo.queries.len() implies !((
    #[trigger] mo.queries[i]).text == (#[trigger] mo.queries[j]).text && mo.queries[i].engine_id
        == mo.queries[j].engine_id) by {
        assert(mo.queries[i].text == m.queries[i].text);
        assert(mo.queries[j].text == m.queries[j].text);
        assert(mo.queries[i].engine_id == m.queries[i].engine_id);
        assert(mo.queries[j].engine_id == m.queries[j].engine_id);
    }
}

/// Linking a valid (query, image) pair preserves the invariant.
pub proof fn lemma_link_image_wf(m: StoreModel, query_id: int, image_id: int)
    requires
        wf_model(m),
        1 <= query_id <= m.queries.len(),
        1 <= image_id <= m.images.len(),
    ensures
        wf_model(link_image(m, query_id, image_id)),
        link_image(m, query_id, image_id).engines == m.engines,
        link_image(m, query_id, image_id).results == m.results,
        link_image(m, query_id, image_id).images == m.images,
        link_image(m, query_id, image_id).queries.len() == m.queries.len(),
{
    let q = m.queries[query_id - 1];
    lemma_add_link_wf(q.image_links, m.images.len() as int, image_id);
    let mo = link_image(m, query_id, image_id);
    assert forall|i: int, j: int| 0 <= i < j < mo.queries.len() implies !((
    #[trigger] mo.queries[i]).text == (#[trigger] mo.queries[j]).text && mo.queries[i].engine_id
        == mo.queries[j].engine_id) by {
        assert(mo.queries[i].text == m.queries[i].text);
        assert(mo.queries[j].text == m.queries[j].text);
        assert(mo.queries[i].engine_id == m.queries[i].engine_id);
        assert(mo.queries[j].engine_id == m.queries[j].engine_id);
    }
}

/// Folding one more entry on the right equals one more step.
pub proof fn lemma_upsert_result_entries_snoc(
    m: StoreModel,
    query_id: int,
    entries: Seq<RowModel>,
    x: RowModel,
)
    ensures
        upsert_result_entries(m, query_id, entries.push(x)) == upsert_result_step(
            upsert_result_entries(m, query_id, entries),
            query_id,
            x,
        ),
    decreases entries.len(),
{
    if entries.len() == 0 {
        let s1 = entries.push(x);
        assert(s1.drop_first() =~= Seq::<RowModel>::empty());
        assert(s1[0] == x);
        let mstep = upsert_result_step(m, query_id, x);
        assert(upsert_result_entries(mstep, query_id, s1.drop_first()) == mstep);
        assert(upsert_result_entries(m, query_id, s1) == mstep);
        assert(upsert_result_entries(m, query_id, entries) == m);
    } else {
        let mstep = upsert_result_step(m, query_id, entries[0]);
        assert(entries.push(x).drop_first() =~= entries.drop_first().push(x));
        assert(entries.push(x)[0] == entries[0]);
        assert(upsert_result_entries(m, query_id, entries.push(x))
            == upsert_result_entries(mstep, query_id, entries.drop_first().push(x)));
        assert(upsert_result_entries(m, query_id, entries) == upsert_result_entries(
            mstep,
            query_id,
            entries.drop_first(),
        ));
        lemma_upsert_result_entries_snoc(mstep, query_id, entries.drop_first(), x);
    }
}

/// The image twin of `lemma_upsert_result_entries_snoc`.
pub proof fn lemma_upsert_image_entries_snoc(
    m: StoreModel,
    query_id: int,
    entries: Seq<ImageModel>,
    x: ImageModel,
)
    ensures
        upsert_image_entries(m, query_id, entries.push(x)) == upsert_image_step(
            upsert_image_entries(m, query_id, entries),
            query_id,
            x,
        ),
    decreases entries.len(),
{
    if entries.len() == 0 {
        let s1 = entries.push(x);
        assert(s1.drop_first() =~= Seq::<ImageModel>::empty());
        assert(s1[0] == x);
        let mstep = upsert_image_step(m, query_id, x);
        assert(upsert_image_entries(mstep, query_id, s1.drop_first()) == mstep);
        assert(upsert_image_entries(m, query_id, s1) == mstep);
        assert(upsert_image_entries(m, query_id, entries) == m);
    } else {
        let mstep = upsert_image_step(m, query_id, entries[0]);
        assert(entries.push(x).drop_first() =~= entries.drop_first().push(x));
        assert(entries.push(x)[0] == entries[0]);
        assert(upsert_image_entries(m, query_id, entries.push(x))
            == upsert_image_entries(mstep, query_id, entries.drop_first().push(x)));
        assert(upsert_image_entries(m, query_id, entries) == upsert_image_entries(
            mstep,
            query_id,
            entries.drop_first(),
        ));
        lemma_upsert_image_entries_snoc(mstep, query_id, entries.drop_first(), x);
    }
}

impl ResultStore {
    /// The store's invariant, over its mathematical image.
    pub open spec fn wf(&self) -> bool {
        wf_model(self@)
    }

    /// An empty store.
    pub fn new() -> (r: ResultStore)
        ensures
            r.wf(),
            r@.engines == Seq::<Seq<char>>::empty(),
            r@.queries == Seq::<QueryModel>::empty(),
            r@.results == Seq::<RowModel>::empty(),
            r@.images == Seq::<ImageModel>::empty(),
    {
        let r = ResultStore { engines: Vec::new(), queries: Vec::new(), results: Vec::new(), images: Vec::new() };
        proof {
            assert(r@.engines =~= Seq::<Seq<char>>::empty());
            assert(r@.queries =~= Seq::<QueryModel>::empty());
            assert(r@.results =~= Seq::<RowModel>::empty());
            assert(r@.images =~= Seq::<ImageModel>::empty());
        }
        r
    }

    /// Index of the engine named `name` in the engine table, if present.
    fn find_engine_idx(&self, name: &str) -> (r: Option<usize>)
        ensures
            match r {
                Some(i) => i < self@.engines.len() && find_engine(self@.engines, name@) == Some(
                    i as int,
                ),
                None => find_engine(self@.engines, name@) is None,
            },
    {
        let n = self.engines.len();
        let mut i: usize = 0;
        let mut found: Option<usize> = None;
        while i < n
            invariant
                n == self.engines.len(),
                0 <= i <= n,
                match found {
                    Some(k) => k < i && find_engine(self@.engines.take(i as int), name@) == Some(
                        k as int,
                    ),
                    None => find_engine(self@.engines.take(i as int), name@) is None,
                },
            decreases n - i,
        {
            proof {
                assert(self@.engines.take(i + 1).drop_last() =~= self@.engines.take(i as int));
                assert(self@.engines.take(i + 1).last() == self@.engines[i as int]);
            }
            if found.is_none() {
                if crate::util::str_eq(self.engines[i].as_str(), name) {
                    found = Some(i);
                }
            }
            i += 1;
        }
        proof {
            assert(self@.engines.take(n as int) =~= self@.engines);
        }
        found
    }

    /// Index of the query row for `(text, engine_id)`, if present.
    fn find_query_idx(&self, text: &str, engine_id: i64) -> (r: Option<usize>)
        ensures
            match r {
                Some(i) => i < self@.queries.len() && find_query(
                    self@.queries,
                    text@,
                    engine_id as int,
                ) == Some(i as int),
                None => find_query(self@.queries, text@, engine_id as int) is None,
            },
    {
        let n = self.queries.len();
        let mut i: usize = 0;
        let mut found: Option<usize> = None;
        while i < n
            invariant
                n == self.queries.len(),
                0 <= i <= n,
                match found {
                    Some(k) => k < i && find_query(
                        self@.queries.take(i as int),
                        text@,
                        engine_id as int,
                    ) == Some(k as int),
                    None => find_query(self@.queries.take(i as int), text@, engine_id as int)
                        is None,
                },
            decreases n - i,
        {
            proof {
                assert(self@.queries.take(i + 1).drop_last() =~= self@.queries.take(i as int));
                assert(self@.queries.take(i + 1).last() == self@.queries[i as int]);
            }
            if found.is_none() {
                if self.queries[i].engine_id == engine_id && crate::util::str_eq(
                    self.queries[i].text.as_str(),
                    text,
                ) {
                    found = Some(i);
                }
            }
            i += 1;
        }
        proof {
            assert(self@.queries.take(n as int) =~= self@.queries);
        }
        found
    }

    /// Index of the result row with this URL, if present.
    fn find_result_idx(&self, url: &str) -> (r: Option<usize>)
        ensures
            match r {
                Some(i) => i < self@.results.len() && find_result(self@.results, url@) == Some(
                    i as int,
                ),
                None => find_result(self@.results, url@) is None,
            },
    {
        let n = self.results.len();
        let mut i: usize = 0;
        let mut found: Option<usize> = None;
        while i < n
            invariant
                n == self.results.len(),
                0 <= i <= n,
                match found {
                    Some(k) => k < i && find_result(self@.results.take(i as int), url@) == Some(
                        k as int,
                    ),
                    None => find_result(self@.results.take(i as int), url@) is None,
                },
            decreases n - i,
        {
            proof {
                assert(self@.results.take(i + 1).drop_last() =~= self@.results.take(i as int));
                assert(self@.results.take(i + 1).last() == self@.results[i as int]);
            }
            if found.is_none() {
                if crate::util::str_eq(self.results[i].url.as_str(), url) {
                    found = Some(i);
                }
            }
            i += 1;
        }
        proof {
            assert(self@.results.take(n as int) =~= self@.results);
        }
        found
    }

    /// Index of the image row with this URL, if present.
    fn find_image_idx(&self, url: &str) -> (r: Option<usize>)
        ensures
            match r {
                Some(i) => i < self@.images.len() && find_image(self@.images, url@) == Some(
                    i as int,
                ),
                None => find_image(self@.images, url@) is None,
            },
    {
        let n = self.images.len();
        let mut i: usize = 0;
        let mut found: Option<usize> = None;
        while i < n
            invariant
                n == self.images.len(),
                0 <= i <= n,
                match found {
                    Some(k) => k < i && find_image(self@.images.take(i as int), url@) == Some(
                        k as int,
                    ),
                    None => find_image(self@.images.take(i as int), url@) is None,
                },
            decreases n - i,
        {
            proof {
                assert(self@.images.take(i + 1).drop_last() =~= self@.images.take(i as int));
                assert(self@.images.take(i + 1).last() == self@.images[i as int]);
            }
            if found.is_none() {
                if crate::util::str_eq(self.images[i].url.as_str(), url) {
                    found = Some(i);
                }
            }
            i += 1;
        }
        proof {
            assert(self@.images.take(n as int) =~= self@.images);
        }
        found
    }

    /// Resolve the id of the engine named `engine`, registering it first if
    /// it is unknown; idempotent.
    pub fn get_engine_id(&mut self, engine: &str) -> (r: Result<i64, StoreError>)
        requires
            old(self).wf(),
        ensures
            final(self).wf(),
            match r {
                Ok(id) => final(self)@ == register_engine(old(self)@, engine@) && id as int
                    == engine_id_in(old(self)@, engine@),
                Err(e) => final(self)@ == old(self)@ && e == StoreError::Full && find_engine(
                    old(self)@.engines,
                    engine@,
                ) is None && old(self)@.engines.len() >= STORE_CAP,
            },
    {
        match self.find_engine_idx(engine) {
            Some(i) => {
                proof {
                    lemma_register_engine_wf(self@, engine@);
                }
                Ok((i + 1) as i64)
            },
            None => {
                if self.engines.len() >= STORE_CAP {
                    return Err(StoreError::Full);
                }
                let ghost m = self@;
                let n = self.engines.len();
                self.engines.push(engine.to_owned());
                proof {
                    lemma_register_engine_wf(m, engine@);
                    assert(self@.engines =~= m.engines.push(engine@));
                    assert(self@ =~= register_engine(m, engine@));
                }
                Ok((n + 1) as i64)
            },
        }
    }

    /// Register `engine` if it is unknown and return its id; the same
    /// resolve-or-create operation as `get_engine_id`.
    pub fn insert_engine(&mut self, engine: &str) -> (r: Result<i64, StoreError>)
        requires
            old(self).wf(),
        ensures
            final(self).wf(),
            match r {
                Ok(id) => final(self)@ == register_engine(old(self)@, engine@) && id as int
                    == engine_id_in(old(self)@, engine@),
                Err(e) => final(self)@ == old(self)@ && e == StoreError::Full && find_engine(
                    old(self)@.engines,
                    engine@,
                ) is None && old(self)@.engines.len() >= STORE_CAP,
            },
    {
        self.get_engine_id(engine)
    }

    /// Look up the query row for `(query, engine_id)`.
    pub fn get_query(&self, query: &str, engine_id: i64) -> (r: Option<QueryRow>)
        requires
            self.wf(),
        ensures
            match find_query(self@.queries, query@, engine_id as int) {
                Some(i) => r matches Some(q) && q.id as int == i + 1 && q.query@
                    == self@.queries[i].text && q.engine_id as int == self@.queries[i].engine_id
                    && q.fetched_at as int == self@.queries[i].fetched_at,
                None => r is None,
            },
    {
        match self.find_query_idx(query, engine_id) {
            Some(i) => {
                let q = &self.queries[i];
                Some(
                    QueryRow {
                        id: (i + 1) as i64,
                        query: q.text.clone(),
                        engine_id: q.engine_id,
                        fetched_at: q.fetched_at,
                    },
                )
            },
            None => None,
        }
    }

    /// Create the query row for `(query, engine_id)`, which must not exist
    /// yet, recording the time of its first fetch.
    pub fn insert_query(&mut self, query: &str, engine_id: i64, fetched_at: i64) -> (r: Result<
        i64,
        StoreError,
    >)
        requires
            old(self).wf(),
            1 <= engine_id as int <= old(self)@.engines.len(),
            find_query(old(self)@.queries, query@, engine_id as int) is None,
        ensures
            final(self).wf(),
            match r {
                Ok(id) => id as int == old(self)@.queries.len() + 1 && final(self)@ == ensure_query(
                    old(self)@,
                    query@,
                    engine_id as int,
                    fetched_at as int,
                ),
                Err(e) => e == StoreError::Full && final(self)@ == old(self)@ && old(
                    self,
                )@.queries.len() >= STORE_CAP,
            },
    {
        if self.queries.len() >= STORE_CAP {
            return Err(StoreError::Full);
        }
        let ghost m = self@;
        let n = self.queries.len();
        self.queries.push(
            StoredQuery {
                text: query.to_owned(),
                engine_id,
                fetched_at,
                result_links: Vec::new(),
                image_links: Vec::new(),
            },
        );
        proof {
            lemma_ensure_query_wf(m, query@, engine_id as int, fetched_at as int);
            assert(self.queries@.last()@.result_links =~= Seq::<LinkModel>::empty());
            assert(self.queries@.last()@.image_links =~= Seq::<LinkModel>::empty());
            assert(self@.queries =~= m.queries.push(
                QueryModel {
                    text: query@,
                    engine_id: engine_id as int,
                    fetched_at: fetched_at as int,
                    result_links: Seq::empty(),
                    image_links: Seq::empty(),
                },
            ));
            assert(self@ =~= ensure_query(m, query@, engine_id as int, fetched_at as int));
        }
        Ok((n + 1) as i64)
    }

    /// Dedup-insert a result row: if the URL is already present the stored
    /// row wins and its id is returned, else the row is appended.
    pub fn insert_result(&mut self, title: &str, url: &str, description: &str) -> (r: Result<
        i64,
        StoreError,
    >)
        requires
            old(self).wf(),
        ensures
            final(self).wf(),
            ({
                let m = old(self)@;
                let row = RowModel { url: url@, title: title@, description: description@ };
                match r {
                    Ok(id) => id as int == result_id_for(m.results, url@) && final(self)@
                        == (StoreModel { results: add_result(m.results, row), ..m }),
                    Err(e) => e == StoreError::Full && final(self)@ == m && find_result(
                        m.results,
                        url@,
                    ) is None && m.results.len() >= STORE_CAP,
                }
            }),
    {
        let ghost m = self@;
        let ghost row = RowModel { url: url@, title: title@, description: description@ };
        match self.find_result_idx(url) {
            Some(i) => {
                proof {
                    assert(add_result(m.results, row) == m.results);
                    assert(self@ =~= (StoreModel { results: add_result(m.results, row), ..m }));
                }
                Ok((i + 1) as i64)
            },
            None => {
                if self.results.len() >= STORE_CAP {
                    return Err(StoreError::Full);
                }
                let n = self.results.len();
                self.results.push(
                    ResultRow {
                        url: url.to_owned(),
                        title: title.to_owned(),
                        description: description.to_owned(),
                    },
                );
                proof {
                    lemma_add_result_wf(m, row);
                    assert(self@.results =~= m.results.push(row));
                    assert(self@ =~= (StoreModel { results: add_result(m.results, row), ..m }));
                }
                Ok((n + 1) as i64)
            },
        }
    }

    /// Dedup-insert an image row.
    pub fn insert_image(&mut self, title: &str, url: &str) -> (r: Result<i64, StoreError>)
        requires
            old(self).wf(),
        ensures
            final(self).wf(),
            ({
                let m = old(self)@;
                let row = ImageModel { url: url@, title: title@ };
                match r {
                    Ok(id) => id as int == image_id_for(m.images, url@) && final(self)@
                        == (StoreModel { images: add_image(m.images, row), ..m }),
                    Err(e) => e == StoreError::Full && final(self)@ == m && find_image(
                        m.images,
                        url@,
                    ) is None && m.images.len() >= STORE_CAP,
                }
            }),
    {
        let ghost m = self@;
        let ghost row = ImageModel { url: url@, title: title@ };
        match self.find_image_idx(url) {
            Some(i) => {
                proof {
                    assert(add_image(m.images, row) == m.images);
                    assert(self@ =~= (StoreModel { images: add_image(m.images, row), ..m }));
                }
                Ok((i + 1) as i64)
            },
            None => {
                if self.images.len() >= STORE_CAP {
                    return Err(StoreError::Full);
                }
                let n = self.images.len();
                self.images.push(ImagesRow { url: url.to_owned(), title: title.to_owned() });
                proof {
                    lemma_add_image_wf(m, row);
                    assert(self@.images =~= m.images.push(row));
                    assert(self@ =~= (StoreModel { images: add_image(m.images, row), ..m }));
                }
                Ok((n + 1) as i64)
            },
        }
    }

    /// Link result `result_id` to query `query_id`; a no-op if the pair is
    /// already linked. `result_index` must be the query's next position (its
    /// current link count), so positions stay contiguous from zero.
    pub fn insert_query_result(&mut self, query_id: i64, result_id: i64, result_index: i64)
        requires
            old(self).wf(),
            1 <= query_id as int <= old(self)@.queries.len(),
            1 <= result_id as int <= old(self)@.results.len(),
            has_link(old(self)@.queries[query_id - 1].result_links, result_id as int) || result_index as int == old(
                self,
            )@.queries[query_id - 1].result_links.len(),
        ensures
            final(self).wf(),
            final(self)@ == link_result(old(self)@, query_id as int, result_id as int),
    {
        let ghost m = self@;
        let qi = (query_id - 1) as usize;
        let n = self.queries[qi].result_links.len();
        let ghost lv = m.queries[qi as int].result_links;
        let mut i: usize = 0;
        let mut linked = false;
        while i < n
            invariant
                self@ == m,
                qi < self@.queries.len(),
                lv == self@.queries[qi as int].result_links,
                n == lv.len(),
                0 <= i <= n,
                linked <==> exists|j: int| 0 <= j < i && lv[j].target_id == result_id as int,
            decreases n - i,
        {
            if self.queries[qi].result_links[i].target_id == result_id {
                proof {
                    assert(lv[i as int].target_id == result_id as int);
                }
                linked = true;
            }
            i += 1;
        }
        if linked {
            proof {
                assert(has_link(lv, result_id as int));
                let q = m.queries[qi as int];
                assert(QueryModel { result_links: add_link(lv, result_id as int), ..q } =~= q);
                assert(m.queries.update(qi as int, q) =~= m.queries);
                assert(link_result(m, query_id as int, result_id as int) =~= m);
            }
            return ;
        }
        proof {
            assert(!has_link(lv, result_id as int));
        }
        let q = &mut self.queries[qi];
        q.result_links.push(Link { target_id: result_id, position: result_index });
        let ghost fq = *q;
        proof {
            let nl = LinkModel { target_id: result_id as int, position: lv.len() as int };
            assert(fq@.result_links =~= lv.push(nl));
            assert(fq@ =~= QueryModel {
                result_links: add_link(lv, result_id as int),
                ..m.queries[qi as int]
            });
            lemma_link_result_wf(m, query_id as int, result_id as int);
            assert(self@.queries =~= m.queries.update(qi as int, fq@));
            assert(self@ =~= link_result(m, query_id as int, result_id as int));
        }
    }

    /// Link image `image_id` to query `query_id`; a no-op if the pair is
    /// already linked. `image_index` must be the query's next position (its
    /// current link count), so positions stay contiguous from zero.
    pub fn insert_query_image(&mut self, query_id: i64, image_id: i64, image_index: i64)
        requires
            old(self).wf(),
            1 <= query_id as int <= old(self)@.queries.len(),
            1 <= image_id as int <= old(self)@.images.len(),
            has_link(old(self)@.queries[query_id - 1].image_links, image_id as int) || image_index as int == old(
                self,
            )@.queries[query_id - 1].image_links.len(),
        ensures
            final(self).wf(),
            final(self)@ == link_image(old(self)@, query_id as int, image_id as int),
    {
        let ghost m = self@;
        let qi = (query_id - 1) as usize;
        let n = self.queries[qi].image_links.len();
        let ghost lv = m.queries[qi as int].image_links;
        let mut i: usize = 0;
        let mut linked = false;
        while i < n
            invariant
                self@ == m,
                qi < self@.queries.len(),
                lv == self@.queries[qi as int].image_links,
                n == lv.len(),
                0 <= i <= n,
                linked <==> exists|j: int| 0 <= j < i && lv[j].target_id == image_id as int,
            decreases n - i,
        {
            if self.queries[qi].image_links[i].target_id == image_id {
                proof {
                    assert(lv[i as int].target_id == image_id as int);
                }
                linked = true;
            }
            i += 1;
        }
        if linked {
            proof {
                assert(has_link(lv, image_id as int));
                let q = m.queries[qi as int];
                assert(QueryModel { image_links: add_link(lv, image_id as int), ..q } =~= q);
                assert(m.queries.update(qi as int, q) =~= m.queries);
                assert(link_image(m, query_id as int, image_id as int) =~= m);
            }
            return ;
        }
        proof {
            assert(!has_link(lv, image_id as int));
        }
        let q = &mut self.queries[qi];
        q.image_links.push(Link { target_id: image_id, position: image_index });
        let ghost fq = *q;
        proof {
            let nl = LinkModel { target_id: image_id as int, position: lv.len() as int };
            assert(fq@.image_links =~= lv.push(nl));
            assert(fq@ =~= QueryModel {
                image_links: add_link(lv, image_id as int),
                ..m.queries[qi as int]
            });
            lemma_link_image_wf(m, query_id as int, image_id as int);
            assert(self@.queries =~= m.queries.update(qi as int, fq@));
            assert(self@ =~= link_image(m, query_id as int, image_id as int));
        }
    }

    /// The result rows linked to `query_id`, in stored position order;
    /// empty for an unknown query id.
    pub fn get_results_for_query(&self, query_id: i64) -> (r: Vec<ResultRow>)
        requires
            self.wf(),
        ensures
            rows_view(r@) == cached_results_of(self@, query_id as int),
    {
        let mut out: Vec<ResultRow> = Vec::new();
        if query_id < 1 || query_id > self.queries.len() as i64 {
            proof {
                assert(rows_view(out@) =~= Seq::<RowModel>::empty());
            }
            return out;
        }
        let qi = (query_id - 1) as usize;
        let n = self.queries[qi].result_links.len();
        let ghost lv = self@.queries[qi as int].result_links;
        let mut i: usize = 0;
        while i < n
            invariant
                self.wf(),
                qi < self@.queries.len(),
                lv == self@.queries[qi as int].result_links,
                n == lv.len(),
                0 <= i <= n,
                rows_view(out@) == links_to_rows(lv.take(i as int), self@.results),
            decreases n - i,
        {
            let tid = self.queries[qi].result_links[i].target_id;
            proof {
                assert(wf_links(lv, self@.results.len() as int));
                assert(1 <= lv[i as int].target_id <= self@.results.len());
                assert(tid as int == lv[i as int].target_id);
            }
            let row = &self.results[(tid - 1) as usize];
            let newrow = ResultRow {
                url: row.url.clone(),
                title: row.title.clone(),
                description: row.description.clone(),
            };
            proof {
                assert(row@ == self@.results[tid as int - 1]);
                assert(newrow@ == self@.results[lv[i as int].target_id - 1]);
            }
            let ghost nvr = newrow;
            let ghost prev = out@;
            out.push(newrow);
            proof {
                assert(prev.len() == i) by {
                    assert(rows_view(prev).len() == prev.len());
                    assert(links_to_rows(lv.take(i as int), self@.results).len() == i);
                }
                assert(out@ == prev.push(nvr));
                assert forall|j: int| 0 <= j < i + 1 implies rows_view(out@)[j] == links_to_rows(
                    lv.take(i + 1),
                    self@.results,
                )[j] by {
                    assert(lv.take(i + 1)[j] == lv[j]);
                    if j < i {
                        assert(prev.push(nvr)[j] == prev[j]);
                        assert(rows_view(prev)[j] == links_to_rows(
                            lv.take(i as int),
                            self@.results,
                        )[j]);
                        assert(lv.take(i as int)[j] == lv[j]);
                    } else {
                        assert(prev.push(nvr)[j] == nvr);
                    }
                }
                assert(rows_view(out@) =~= links_to_rows(lv.take(i + 1), self@.results));
            }
            i += 1;
        }
        proof {
            assert(lv.take(n as int) =~= lv);
        }
        out
    }

    /// The image rows linked to `query_id`, in stored position order.
    pub fn get_images_for_query(&self, query_id: i64) -> (r: Vec<ImagesRow>)
        requires
            self.wf(),
        ensures
            images_view(r@) == cached_images_of(self@, query_id as int),
    {
        let mut out: Vec<ImagesRow> = Vec::new();
        if query_id < 1 || query_id > self.queries.len() as i64 {
            proof {
                assert(images_view(out@) =~= Seq::<ImageModel>::empty());
            }
            return out;
        }
        let qi = (query_id - 1) as usize;
        let n = self.queries[qi].image_links.len();
        let ghost lv = self@.queries[qi as int].image_links;
        let mut i: usize = 0;
        while i < n
            invariant
                self.wf(),
                qi < self@.queries.len(),
                lv == self@.queries[qi as int].image_links,
                n == lv.len(),
                0 <= i <= n,
                images_view(out@) == links_to_images(lv.take(i as int), self@.images),
            decreases n - i,
        {
            let tid = self.queries[qi].image_links[i].target_id;
            proof {
                assert(wf_links(lv, self@.images.len() as int));
                assert(1 <= lv[i as int].target_id <= self@.images.len());
                assert(tid as int == lv[i as int].target_id);
            }
            let row = &self.images[(tid - 1) as usize];
            let newrow = ImagesRow { url: row.url.clone(), title: row.title.clone() };
            proof {
                assert(row@ == self@.images[tid as int - 1]);
                assert(newrow@ == self@.images[lv[i as int].target_id - 1]);
            }
            let ghost nvr = newrow;
            let ghost prev = out@;
            out.push(newrow);
            proof {
                assert(prev.len() == i) by {
                    assert(images_view(prev).len() == prev.len());
                    assert(links_to_images(lv.take(i as int), self@.images).len() == i);
                }
                assert(out@ == prev.push(nvr));
                assert forall|j: int| 0 <= j < i + 1 implies images_view(out@)[j]
                    == links_to_images(lv.take(i + 1), self@.images)[j] by {
                    assert(lv.take(i + 1)[j] == lv[j]);
                    if j < i {
                        assert(prev.push(nvr)[j] == prev[j]);
                        assert(images_view(prev)[j] == links_to_images(
                            lv.take(i as int),
                            self@.images,
                        )[j]);
                        assert(lv.take(i as int)[j] == lv[j]);
                    } else {
                        assert(prev.push(nvr)[j] == nvr);
                    }
                }
                assert(images_view(out@) =~= links_to_images(lv.take(i + 1), self@.images));
            }
            i += 1;
        }
        proof {
            assert(lv.take(n as int) =~= lv);
        }
        out
    }

    /// The raw (query, result) link rows of `query_id`, in stored order.
    pub fn get_result_for_query(&self, query_id: i64) -> (r: Vec<QueryResultRow>)
        requires
            self.wf(),
        ensures
            ({
                let links = if 1 <= query_id as int <= self@.queries.len() {
                    self@.queries[query_id - 1].result_links
                } else {
                    Seq::<LinkModel>::empty()
                };
                &&& r@.len() == links.len()
                &&& forall|i: int|
                    0 <= i < links.len() ==> (#[trigger] r@[i]).query_id == query_id
                        && r@[i].result_id as int == links[i].target_id
            }),
    {
        let mut out: Vec<QueryResultRow> = Vec::new();
        if query_id < 1 || query_id > self.queries.len() as i64 {
            return out;
        }
        let qi = (query_id - 1) as usize;
        let n = self.queries[qi].result_links.len();
        let ghost lv = self@.queries[qi as int].result_links;
        let mut i: usize = 0;
        while i < n
            invariant
                self.wf(),
                qi < self@.queries.len(),
                lv == self@.queries[qi as int].result_links,
                n == lv.len(),
                0 <= i <= n,
                out@.len() == i,
                forall|j: int|
                    0 <= j < i ==> (#[trigger] out@[j]).query_id == query_id
                        && out@[j].result_id as int == lv[j].target_id,
            decreases n - i,
        {
            let tid = self.queries[qi].result_links[i].target_id;
            proof {
                assert(tid as int == lv[i as int].target_id);
            }
            out.push(QueryResultRow { query_id, result_id: tid });
            i += 1;
        }
        out
    }

    /// The raw (query, image) link rows of `query_id`, in stored order.
    pub fn get_image_for_query(&self, query_id: i64) -> (r: Vec<QueryImageRow>)
        requires
            self.wf(),
        ensures
            ({
                let links = if 1 <= query_id as int <= self@.queries.len() {
                    self@.queries[query_id - 1].image_links
                } else {
                    Seq::<LinkModel>::empty()
                };
                &&& r@.len() == links.len()
                &&& forall|i: int|
                    0 <= i < links.len() ==> (#[trigger] r@[i]).query_id == query_id
                        && r@[i].image_id as int == links[i].target_id
            }),
    {
        let mut out: Vec<QueryImageRow> = Vec::new();
        if query_id < 1 || query_id > self.queries.len() as i64 {
            return out;
        }
        let qi = (query_id - 1) as usize;
        let n = self.queries[qi].image_links.len();
        let ghost lv = self@.queries[qi as int].image_links;
        let mut i: usize = 0;
        while i < n
            invariant
                self.wf(),
                qi < self@.queries.len(),
                lv == self@.queries[qi as int].image_links,
                n == lv.len(),
                0 <= i <= n,
                out@.len() == i,
                forall|j: int|
                    0 <= j < i ==> (#[trigger] out@[j]).query_id == query_id
                        && out@[j].image_id as int == lv[j].target_id,
            decreases n - i,
        {
            let tid = self.queries[qi].image_links[i].target_id;
            proof {
                assert(tid as int == lv[i as int].target_id);
            }
            out.push(QueryImageRow { query_id, image_id: tid });
            i += 1;
        }
        out
    }

    /// Upsert one fetched page: resolve or create the engine and the query
    /// row, then for each entry in page order dedup-insert it globally and,
    /// if it is not yet linked, link it to the query at the next position —
    /// already-linked entries are skipped without consuming a position, so
    /// positions stay contiguous from zero in first-seen order. The page
    /// lands atomically: if it cannot fit under the store's capacity the
    /// store is left unchanged and the call fails.
    pub fn upsert_query_with_results(
        &mut self,
        engine: &str,
        query: &str,
        entries: Vec<ResultRow>,
        fetched_at: i64,
    ) -> (r: Result<i64, StoreError>)
        requires
            old(self).wf(),
        ensures
            final(self).wf(),
            ({
                let m = old(self)@;
                if upsert_results_fits(m, engine@, query@, rows_view(entries@)) {
                    &&& r matches Ok(id) && id as int == upsert_qid(m, engine@, query@)
                    &&& final(self)@ == upsert_results_model(
                        m,
                        engine@,
                        query@,
                        rows_view(entries@),
                        fetched_at as int,
                    )
                } else {
                    &&& r matches Err(e) && e == StoreError::Full
                    &&& final(self)@ == m
                }
            }),
    {
        let ghost m = self@;
        let ghost ev = rows_view(entries@);
        // Capacity pre-check, so that the whole page becomes visible
        // atomically or not at all.
        let engine_found = self.find_engine_idx(engine);
        let eid_tmp: i64 = match engine_found {
            Some(i) => (i + 1) as i64,
            None => (self.engines.len() + 1) as i64,
        };
        proof {
            assert(eid_tmp as int == engine_id_in(m, engine@));
        }
        let query_found = self.find_query_idx(query, eid_tmp);
        let fits_e = engine_found.is_some() || self.engines.len() < STORE_CAP;
        let fits_q = query_found.is_some() || self.queries.len() < STORE_CAP;
        // count the entries that would create a new row: those whose URL
        // is neither stored already nor repeated earlier in the page
        let n_entries = entries.len();
        let mut fresh: usize = 0;
        let mut t: usize = 0;
        proof {
            assert(ev.take(0) =~= Seq::<RowModel>::empty());
        }
        while t < n_entries
            invariant
                self@ == m,
                n_entries == entries@.len(),
                ev == rows_view(entries@),
                0 <= t <= n_entries,
                fresh <= t,
                fresh as int == fresh_count(m.results, ev.take(t as int)),
            decreases n_entries - t,
        {
            proof {
                assert(ev.take(t + 1).drop_last() =~= ev.take(t as int));
                assert(ev.take(t + 1).last() == ev[t as int]);
            }
            let in_store = self.find_result_idx(&entries[t].url).is_some();
            let mut seen = false;
            let mut j: usize = 0;
            while j < t
                invariant
                    n_entries == entries@.len(),
                    t < n_entries,
                    ev == rows_view(entries@),
                    0 <= j <= t,
                    seen <==> exists|w: int|
                        0 <= w < j && (#[trigger] ev[w]).url == ev[t as int].url,
                decreases t - j,
            {
                if crate::util::str_eq(entries[j].url.as_str(), entries[t].url.as_str()) {
                    proof {
                        assert(ev[j as int].url == ev[t as int].url);
                    }
                    seen = true;
                }
                j += 1;
            }
            if !in_store && !seen {
                proof {
                    assert forall|w: int| 0 <= w < t implies (#[trigger] ev.take(t + 1)[w]).url
                        != ev[t as int].url by {
                        assert(ev.take(t + 1)[w] == ev[w]);
                        if ev[w].url == ev[t as int].url {
                            assert(exists|u: int|
                                0 <= u < t && (#[trigger] ev[u]).url == ev[t as int].url);
                        }
                    }
                    assert(fresh_count(m.results, ev.take(t + 1)) == fresh_count(
                        m.results,
                        ev.take(t as int),
                    ) + 1);
                }
                fresh += 1;
            } else {
                proof {
                    if seen {
                        let w = choose|w: int|
                            0 <= w < t && (#[trigger] ev[w]).url == ev[t as int].url;
                        assert(ev.take(t + 1)[w] == ev[w]);
                    }
                    assert(fresh_count(m.results, ev.take(t + 1)) == fresh_count(
                        m.results,
                        ev.take(t as int),
                    ));
                }
            }
            t += 1;
        }
        proof {
            assert(ev.take(n_entries as int) =~= ev);
        }
        let fits_r = fresh <= STORE_CAP - self.results.len();
        if !(fits_e && fits_q && fits_r) {
            proof {
                assert(!upsert_results_fits(m, engine@, query@, ev));
            }
            return Err(StoreError::Full);
        }
        proof {
            assert(upsert_results_fits(m, engine@, query@, ev));
        }
        // Resolve or create the engine and the query row.
        let engine_id = match self.get_engine_id(engine) {
            Ok(id) => id,
            Err(e) => {
                proof {
                    assert(false);
                }
                return Err(e);
            },
        };
        let ghost m1 = self@;
        proof {
            lemma_register_engine_wf(m, engine@);
        }
        let query_id = match self.find_query_idx(query, engine_id) {
            Some(qi) => (qi + 1) as i64,
            None => match self.insert_query(query, engine_id, fetched_at) {
                Ok(id) => id,
                Err(e) => {
                    proof {
                        assert(false);
                    }
                    return Err(e);
                },
            },
        };
        let ghost m2 = self@;
        let ghost qid = query_id as int;
        proof {
            lemma_ensure_query_wf(m1, query@, engine_id as int, fetched_at as int);
            assert(m2 == ensure_query(m1, query@, engine_id as int, fetched_at as int));
            assert(qid == upsert_qid(m, engine@, query@));
            assert(1 <= qid <= m2.queries.len());
            assert(wf_links(m2.queries[qid - 1].result_links, m2.results.len() as int));
            lemma_wf_links_len_bound(m2.queries[qid - 1].result_links, m2.results.len() as int);
        }
        proof {
            assert(ev.take(0) =~= Seq::<RowModel>::empty());
        }
        let mut i: usize = 0;
        while i < entries.len()
            invariant
                self.wf(),
                m2.queries.len() <= STORE_CAP,
                m2.results == m.results,
                m.results.len() + fresh_count(m.results, ev) <= STORE_CAP,
                1 <= qid <= m2.queries.len(),
                qid == query_id as int,
                ev == rows_view(entries@),
                0 <= i <= entries@.len(),
                entries@.len() == entries.len(),
                self@ == upsert_result_entries(m2, qid, ev.take(i as int)),
                self@.queries.len() == m2.queries.len(),
                self@.results.len() <= m.results.len() + fresh_count(
                    m.results,
                    ev.take(i as int),
                ),
            decreases entries@.len() - i,
        {
            let ghost cur = self@;
            proof {
                lemma_upsert_result_entries_props(m2, qid, ev.take(i as int));
                assert(ev[i as int] == entries@[i as int]@);
                assert(cur.results.take(m.results.len() as int) == m.results) by {
                    assert(cur.results.take(m2.results.len() as int) == m2.results);
                }
                assert(ev.take(i + 1).drop_last() =~= ev.take(i as int));
                assert(ev.take(i + 1).last() == ev[i as int]);
                if find_result(cur.results, ev[i as int].url) is None {
                    assert(find_result(m.results, ev[i as int].url) is None) by {
                        if find_result(m.results, ev[i as int].url) is Some {
                            lemma_find_result_extend(m.results, cur.results, ev[i as int].url);
                        }
                    }
                    assert forall|w: int| 0 <= w < i implies (#[trigger] ev.take(i + 1)[w]).url
                        != ev[i as int].url by {
                        assert(ev.take(i + 1)[w] == ev[w]);
                        assert(ev.take(i as int)[w] == ev[w]);
                        assert(find_result(cur.results, ev.take(i as int)[w].url) is Some);
                    }
                    assert(fresh_count(m.results, ev.take(i + 1)) == fresh_count(
                        m.results,
                        ev.take(i as int),
                    ) + 1);
                } else {
                    assert(fresh_count(m.results, ev.take(i + 1)) >= fresh_count(
                        m.results,
                        ev.take(i as int),
                    ));
                }
                lemma_fresh_count_take_bound(m.results, ev, i + 1);
            }
            let rid = match self.insert_result(
                &entries[i].title,
                &entries[i].url,
                &entries[i].description,
            ) {
                Ok(id) => id,
                Err(e) => {
                    proof {
                        assert(false);
                    }
                    return Err(e);
                },
            };
            proof {
                lemma_add_result_wf(cur, ev[i as int]);
                assert(self@.results.len() <= m.results.len() + fresh_count(
                    m.results,
                    ev.take(i + 1),
                ));
            }
            proof {
                assert(wf_links(
                    self@.queries[qid - 1].result_links,
                    self@.results.len() as int,
                ));
                lemma_wf_links_len_bound(
                    self@.queries[qid - 1].result_links,
                    self@.results.len() as int,
                );
            }
            let pos = self.queries[(query_id - 1) as usize].result_links.len() as i64;
            self.insert_query_result(query_id, rid, pos);
            proof {
                assert(self@ == upsert_result_step(cur, qid, ev[i as int]));
                lemma_upsert_result_entries_snoc(m2, qid, ev.take(i as int), ev[i as int]);
                assert(ev.take(i + 1) =~= ev.take(i as int).push(ev[i as int]));
                assert(self@ == upsert_result_entries(m2, qid, ev.take(i + 1)));
            }
            i += 1;
        }
        proof {
            assert(ev.take(entries@.len() as int) =~= ev);
            assert(self@ == upsert_results_model(
                m,
                engine@,
                query@,
                rows_view(entries@),
                fetched_at as int,
            ));
        }
        Ok(query_id)
    }

    /// The image twin of `upsert_query_with_results`.
    pub fn upsert_query_with_images(
        &mut self,
        engine: &str,
        query: &str,
        entries: Vec<ImagesRow>,
        fetched_at: i64,
    ) -> (r: Result<i64, StoreError>)
        requires
            old(self).wf(),
        ensures
            final(self).wf(),
            ({
                let m = old(self)@;
                if upsert_images_fits(m, engine@, query@, images_view(entries@)) {
                    &&& r matches Ok(id) && id as int == upsert_qid(m, engine@, query@)
                    &&& final(self)@ == upsert_images_model(
                        m,
                        engine@,
                        query@,
                        images_view(entries@),
                        fetched_at as int,
                    )
                } else {
                    &&& r matches Err(e) && e == StoreError::Full
                    &&& final(self)@ == m
                }
            }),
    {
        let ghost m = self@;
        let ghost ev = images_view(entries@);
        let engine_found = self.find_engine_idx(engine);
        let eid_tmp: i64 = match engine_found {
            Some(i) => (i + 1) as i64,
            None => (self.engines.len() + 1) as i64,
        };
        proof {
            assert(eid_tmp as int == engine_id_in(m, engine@));
        }
        let query_found = self.find_query_idx(query, eid_tmp);
        let fits_e = engine_found.is_some() || self.engines.len() < STORE_CAP;
        let fits_q = query_found.is_some() || self.queries.len() < STORE_CAP;
        // count the entries that would create a new row: those whose URL
        // is neither stored already nor repeated earlier in the page
        let n_entries = entries.len();
        let mut fresh: usize = 0;
        let mut t: usize = 0;
        proof {
            assert(ev.take(0) =~= Seq::<ImageModel>::empty());
        }
        while t < n_entries
            invariant
                self@ == m,
                n_entries == entries@.len(),
                ev == images_view(entries@),
                0 <= t <= n_entries,
                fresh <= t,
                fresh as int == fresh_count_img(m.images, ev.take(t as int)),
            decreases n_entries - t,
        {
            proof {
                assert(ev.take(t + 1).drop_last() =~= ev.take(t as int));
                assert(ev.take(t + 1).last() == ev[t as int]);
            }
            let in_store = self.find_image_idx(&entries[t].url).is_some();
            let mut seen = false;
            let mut j: usize = 0;
            while j < t
                invariant
                    n_entries == entries@.len(),
                    t < n_entries,
                    ev == images_view(entries@),
                    0 <= j <= t,
                    seen <==> exists|w: int|
                        0 <= w < j && (#[trigger] ev[w]).url == ev[t as int].url,
                decreases t - j,
            {
                if crate::util::str_eq(entries[j].url.as_str(), entries[t].url.as_str()) {
                    proof {
                        assert(ev[j as int].url == ev[t as int].url);
                    }
                    seen = true;
                }
                j += 1;
            }
            if !in_store && !seen {
                proof {
                    assert forall|w: int| 0 <= w < t implies (#[trigger] ev.take(t + 1)[w]).url
                        != ev[t as int].url by {
                        assert(ev.take(t + 1)[w] == ev[w]);
                        if ev[w].url == ev[t as int].url {
                            assert(exists|u: int|
                                0 <= u < t && (#[trigger] ev[u]).url == ev[t as int].url);
                        }
                    }
                    assert(fresh_count_img(m.images, ev.take(t + 1)) == fresh_count_img(
                        m.images,
                        ev.take(t as int),
                    ) + 1);
                }
                fresh += 1;
            } else {
                proof {
                    if seen {
                        let w = choose|w: int|
                            0 <= w < t && (#[trigger] ev[w]).url == ev[t as int].url;
                        assert(ev.take(t + 1)[w] == ev[w]);
                    }
                    assert(fresh_count_img(m.images, ev.take(t + 1)) == fresh_count_img(
                        m.images,
                        ev.take(t as int),
                    ));
                }
            }
            t += 1;
        }
        proof {
            assert(ev.take(n_entries as int) =~= ev);
        }
        let fits_r = fresh <= STORE_CAP - self.images.len();
        if !(fits_e && fits_q && fits_r) {
            proof {
                assert(!upsert_images_fits(m, engine@, query@, ev));
            }
            return Err(StoreError::Full);
        }
        proof {
            assert(upsert_images_fits(m, engine@, query@, ev));
        }
        let engine_id = match self.get_engine_id(engine) {
            Ok(id) => id,
            Err(e) => {
                proof {
                    assert(false);
                }
                return Err(e);
            },
        };
        let ghost m1 = self@;
        proof {
            lemma_register_engine_wf(m, engine@);
        }
        let query_id = match self.find_query_idx(query, engine_id) {
            Some(qi) => (qi + 1) as i64,
            None => match self.insert_query(query, engine_id, fetched_at) {
                Ok(id) => id,
                Err(e) => {
                    proof {
                        assert(false);
                    }
                    return Err(e);
                },
            },
        };
        let ghost m2 = self@;
        let ghost qid = query_id as int;
        proof {
            lemma_ensure_query_wf(m1, query@, engine_id as int, fetched_at as int);
            assert(m2 == ensure_query(m1, query@, engine_id as int, fetched_at as int));
            assert(qid == upsert_qid(m, engine@, query@));
            assert(1 <= qid <= m2.queries.len());
            assert(wf_links(m2.queries[qid - 1].image_links, m2.images.len() as int));
            lemma_wf_links_len_bound(m2.queries[qid - 1].image_links, m2.images.len() as int);
        }
        proof {
            assert(ev.take(0) =~= Seq::<ImageModel>::empty());
        }
        let mut i: usize = 0;
        while i < entries.len()
            invariant
                self.wf(),
                m2.queries.len() <= STORE_CAP,
                m2.images == m.images,
                m.images.len() + fresh_count_img(m.images, ev) <= STORE_CAP,
                1 <= qid <= m2.queries.len(),
                qid == query_id as int,
                ev == images_view(entries@),
                0 <= i <= entries@.len(),
                entries@.len() == entries.len(),
                self@ == upsert_image_entries(m2, qid, ev.take(i as int)),
                self@.queries.len() == m2.queries.len(),
                self@.images.len() <= m.images.len() + fresh_count_img(
                    m.images,
                    ev.take(i as int),
                ),
            decreases entries@.len() - i,
        {
            let ghost cur = self@;
            proof {
                lemma_upsert_image_entries_props(m2, qid, ev.take(i as int));
                assert(ev[i as int] == entries@[i as int]@);
                assert(cur.images.take(m.images.len() as int) == m.images) by {
                    assert(cur.images.take(m2.images.len() as int) == m2.images);
                }
                assert(ev.take(i + 1).drop_last() =~= ev.take(i as int));
                assert(ev.take(i + 1).last() == ev[i as int]);
                if find_image(cur.images, ev[i as int].url) is None {
                    assert(find_image(m.images, ev[i as int].url) is None) by {
                        if find_image(m.images, ev[i as int].url) is Some {
                            lemma_find_image_extend(m.images, cur.images, ev[i as int].url);
                        }
                    }
                    assert forall|w: int| 0 <= w < i implies (#[trigger] ev.take(i + 1)[w]).url
                        != ev[i as int].url by {
                        assert(ev.take(i + 1)[w] == ev[w]);
                        assert(ev.take(i as int)[w] == ev[w]);
                        assert(find_image(cur.images, ev.take(i as int)[w].url) is Some);
                    }
                    assert(fresh_count_img(m.images, ev.take(i + 1)) == fresh_count_img(
                        m.images,
                        ev.take(i as int),
                    ) + 1);
                } else {
                    assert(fresh_count_img(m.images, ev.take(i + 1)) >= fresh_count_img(
                        m.images,
                        ev.take(i as int),
                    ));
                }
                lemma_fresh_count_img_take_bound(m.images, ev, i + 1);
            }
            let iid = match self.insert_image(&entries[i].title, &entries[i].url) {
                Ok(id) => id,
                Err(e) => {
                    proof {
                        assert(false);
                    }
                    return Err(e);
                },
            };
            proof {
                lemma_add_image_wf(cur, ev[i as int]);
                assert(self@.images.len() <= m.images.len() + fresh_count_img(
                    m.images,
                    ev.take(i + 1),
                ));
            }
            proof {
                assert(wf_links(
                    self@.queries[qid - 1].image_links,
                    self@.images.len() as int,
                ));
                lemma_wf_links_len_bound(
                    self@.queries[qid - 1].image_links,
                    self@.images.len() as int,
                );
            }
            let pos = self.queries[(query_id - 1) as usize].image_links.len() as i64;
            self.insert_query_image(query_id, iid, pos);
            proof {
                assert(self@ == upsert_image_step(cur, qid, ev[i as int]));
                lemma_upsert_image_entries_snoc(m2, qid, ev.take(i as int), ev[i as int]);
                assert(ev.take(i + 1) =~= ev.take(i as int).push(ev[i as int]));
                assert(self@ == upsert_image_entries(m2, qid, ev.take(i + 1)));
            }
            i += 1;
        }
        proof {
            assert(ev.take(entries@.len() as int) =~= ev);
            assert(self@ == upsert_images_model(
                m,
                engine@,
                query@,
                images_view(entries@),
                fetched_at as int,
            ));
        }
        Ok(query_id)
    }
}
// ---------------------------------------------------------------------------
// Laws of the store.
// ---------------------------------------------------------------------------

/// `find_result` is stable under appending rows once it has found its row.
proof fn lemma_find_result_extend(a: Seq<RowModel>, b: Seq<RowModel>, url: Seq<char>)
    requires
        a.len() <= b.len(),
        b.take(a.len() as int) == a,
        find_result(a, url) is Some,
    ensures
        find_result(b, url) == find_result(a, url),
    decreases b.len(),
{
    if b.len() == a.len() {
        assert(b.take(a.len() as int) =~= b);
    } else {
        assert(b.drop_last().take(a.len() as int) =~= b.take(a.len() as int));
        lemma_find_result_extend(a, b.drop_last(), url);
    }
}

/// What one upsert step does and does not touch.
proof fn lemma_upsert_result_step_props(m: StoreModel, qid: int, row: RowModel)
    requires
        1 <= qid <= m.queries.len(),
    ensures
        ({
            let mo = upsert_result_step(m, qid, row);
            &&& mo.engines == m.engines
            &&& mo.images == m.images
            &&& mo.queries.len() == m.queries.len()
            &&& forall|j: int|
                0 <= j < m.queries.len() && j != qid - 1 ==> mo.queries[j] == m.queries[j]
            &&& mo.queries[qid - 1].text == m.queries[qid - 1].text
            &&& mo.queries[qid - 1].engine_id == m.queries[qid - 1].engine_id
            &&& mo.queries[qid - 1].fetched_at == m.queries[qid - 1].fetched_at
            &&& mo.queries[qid - 1].image_links == m.queries[qid - 1].image_links
            &&& mo.results == add_result(m.results, row)
            &&& m.results.len() <= mo.results.len() <= m.results.len() + 1
            &&& mo.results.take(m.results.len() as int) == m.results
            &&& find_result(mo.results, row.url) is Some
            &&& has_link(mo.queries[qid - 1].result_links, result_id_for(m.results, row.url))
            &&& forall|t: int|
                #[trigger] has_link(m.queries[qid - 1].result_links, t) ==> has_link(
                    mo.queries[qid - 1].result_links,
                    t,
                )
        }),
{
    let mo = upsert_result_step(m, qid, row);
    let rs = add_result(m.results, row);
    lemma_find_result(m.results, row.url);
    if find_result(m.results, row.url) is None {
        assert(rs.take(m.results.len() as int) =~= m.results);
        assert(rs.drop_last() =~= m.results);
        assert(find_result(rs, row.url) is Some);
    } else {
        assert(rs.take(m.results.len() as int) =~= m.results);
    }
    let id = result_id_for(m.results, row.url);
    let links = m.queries[qid - 1].result_links;
    let nlinks = add_link(links, id);
    if !has_link(links, id) {
        let nl = LinkModel { target_id: id, position: links.len() as int };
        assert(links.push(nl)[links.len() as int] == nl);
        assert(has_link(nlinks, id));
        assert forall|t: int| has_link(links, t) implies has_link(nlinks, t) by {
            let w = choose|w: int| 0 <= w < links.len() && links[w].target_id == t;
            assert(nlinks[w] == links[w]);
        }
    }
}

/// After folding a page in, every entry's URL has a row and that row is
/// linked to the query; nothing else moves.
proof fn lemma_upsert_result_entries_props(
    m: StoreModel,
    qid: int,
    entries: Seq<RowModel>,
)
    requires
        1 <= qid <= m.queries.len(),
    ensures
        ({
            let mo = upsert_result_entries(m, qid, entries);
            &&& mo.engines == m.engines
            &&& mo.images == m.images
            &&& mo.queries.len() == m.queries.len()
            &&& forall|j: int|
                0 <= j < m.queries.len() && j != qid - 1 ==> mo.queries[j] == m.queries[j]
            &&& mo.queries[qid - 1].text == m.queries[qid - 1].text
            &&& mo.queries[qid - 1].engine_id == m.queries[qid - 1].engine_id
            &&& mo.queries[qid - 1].fetched_at == m.queries[qid - 1].fetched_at
            &&& mo.queries[qid - 1].image_links == m.queries[qid - 1].image_links
            &&& m.results.len() <= mo.results.len()
            &&& mo.results.take(m.results.len() as int) == m.results
            &&& forall|k: int|
                0 <= k < entries.len() ==> find_result(
                    mo.results,
                    (#[trigger] entries[k]).url,
                ) is Some
            &&& forall|k: int|
                0 <= k < entries.len() ==> has_link(
                    mo.queries[qid - 1].result_links,
                    result_id_for(mo.results, (#[trigger] entries[k]).url),
                )
            &&& forall|t: int|
                #[trigger] has_link(m.queries[qid - 1].result_links, t) ==> has_link(
                    mo.queries[qid - 1].result_links,
                    t,
                )
        }),
    decreases entries.len(),
{
    if entries.len() == 0 {
        assert(upsert_result_entries(m, qid, entries) == m);
        assert(m.results.take(m.results.len() as int) =~= m.results);
    } else {
        let m1 = upsert_result_step(m, qid, entries[0]);
        lemma_upsert_result_step_props(m, qid, entries[0]);
        lemma_upsert_result_entries_props(m1, qid, entries.drop_first());
        let mo = upsert_result_entries(m, qid, entries);
        assert(mo == upsert_result_entries(m1, qid, entries.drop_first()));
        // the prefix of the original results is preserved through both hops
        assert(mo.results.take(m.results.len() as int) =~= m.results) by {
            assert(mo.results.take(m1.results.len() as int) == m1.results);
            assert forall|j: int| 0 <= j < m.results.len() implies mo.results.take(
                m.results.len() as int,
            )[j] == m.results[j] by {
                assert(mo.results.take(m1.results.len() as int)[j] == m1.results[j]);
                assert(m1.results.take(m.results.len() as int)[j] == m.results[j]);
            }
        }
        // entry 0 stays found and linked
        assert(find_result(mo.results, entries[0].url) is Some) by {
            lemma_find_result_extend(m1.results, mo.results, entries[0].url);
        }
        assert(has_link(
            mo.queries[qid - 1].result_links,
            result_id_for(mo.results, entries[0].url),
        )) by {
            lemma_find_result_extend(m1.results, mo.results, entries[0].url);
            assert(result_id_for(mo.results, entries[0].url) == result_id_for(
                m1.results,
                entries[0].url,
            ));
            assert(result_id_for(m1.results, entries[0].url) == result_id_for(
                m.results,
                entries[0].url,
            )) by {
                lemma_find_result(m.results, entries[0].url);
                if find_result(m.results, entries[0].url) is None {
                    assert(m1.results == add_result(m.results, entries[0]));
                    assert(m1.results.drop_last() =~= m.results);
                } else {
                    lemma_find_result_extend(m.results, m1.results, entries[0].url);
                }
            }
        }
        assert forall|k: int| 0 <= k < entries.len() implies find_result(
            mo.results,
            (#[trigger] entries[k]).url,
        ) is Some by {
            if k > 0 {
                assert(entries[k] == entries.drop_first()[k - 1]);
            }
        }
        assert forall|k: int| 0 <= k < entries.len() implies has_link(
            mo.queries[qid - 1].result_links,
            result_id_for(mo.results, (#[trigger] entries[k]).url),
        ) by {
            if k > 0 {
                assert(entries[k] == entries.drop_first()[k - 1]);
            }
        }
        assert forall|t: int| #[trigger] has_link(m.queries[qid - 1].result_links, t) implies
            has_link(mo.queries[qid - 1].result_links, t) by {
            assert(has_link(m1.queries[qid - 1].result_links, t));
        }
    }
}

/// A page whose entries are all present and all linked folds to nothing.
proof fn lemma_upsert_result_entries_noop(
    m: StoreModel,
    qid: int,
    entries: Seq<RowModel>,
)
    requires
        1 <= qid <= m.queries.len(),
        forall|k: int|
            0 <= k < entries.len() ==> find_result(m.results, (#[trigger] entries[k]).url)
                is Some,
        forall|k: int|
            0 <= k < entries.len() ==> has_link(
                m.queries[qid - 1].result_links,
                result_id_for(m.results, (#[trigger] entries[k]).url),
            ),
    ensures
        upsert_result_entries(m, qid, entries) == m,
    decreases entries.len(),
{
    if entries.len() > 0 {
        let m1 = upsert_result_step(m, qid, entries[0]);
        assert(m1 == m) by {
            assert(add_result(m.results, entries[0]) == m.results);
            let id = result_id_for(m.results, entries[0].url);
            let q = m.queries[qid - 1];
            assert(has_link(q.result_links, id));
            assert(add_link(q.result_links, id) == q.result_links);
            assert(QueryModel { result_links: q.result_links, ..q } =~= q);
            assert(m.queries.update(qid - 1, q) =~= m.queries);
            assert(m1 =~= m);
        }
        assert(forall|k: int|
            0 <= k < entries.len() - 1 ==> entries.drop_first()[k] == entries[k + 1]);
        lemma_upsert_result_entries_noop(m, qid, entries.drop_first());
        assert(upsert_result_entries(m, qid, entries) == upsert_result_entries(
            m1,
            qid,
            entries.drop_first(),
        ));
    }
}

/// Two query tables with the same keys resolve lookups identically.
proof fn lemma_find_query_same_keys(
    q1: Seq<QueryModel>,
    q2: Seq<QueryModel>,
    text: Seq<char>,
    engine_id: int,
)
    requires
        q1.len() == q2.len(),
        forall|j: int|
            0 <= j < q1.len() ==> (#[trigger] q1[j]).text == (#[trigger] q2[j]).text
                && q1[j].engine_id == q2[j].engine_id,
    ensures
        find_query(q1, text, engine_id) == find_query(q2, text, engine_id),
    decreases q1.len(),
{
    if q1.len() > 0 {
        assert(forall|j: int|
            0 <= j < q1.len() - 1 ==> q1.drop_last()[j] == q1[j] && q2.drop_last()[j] == q2[j]);
        lemma_find_query_same_keys(q1.drop_last(), q2.drop_last(), text, engine_id);
    }
}

/// Idempotence: repeating an upsert with identical engine, text, entries
/// and time resolves to the same query id and leaves the store exactly as
/// the first upsert left it — no duplicate rows and no duplicate links.
/// A repeated page counts no fresh URLs, so it always fits under the
/// capacity guard: the executable retry succeeds and is a no-op.
pub proof fn lemma_upsert_results_idempotent(
    m: StoreModel,
    engine: Seq<char>,
    text: Seq<char>,
    entries: Seq<RowModel>,
    t: int,
)
    ensures
        ({
            let mo = upsert_results_model(m, engine, text, entries, t);
            &&& upsert_qid(mo, engine, text) == upsert_qid(m, engine, text)
            &&& upsert_results_model(mo, engine, text, entries, t) == mo
        }),
{
    let ma = register_engine(m, engine);
    let eid = engine_id_in(m, engine);
    let mb = ensure_query(ma, text, eid, t);
    let qid = upsert_qid(m, engine, text);
    let mo = upsert_results_model(m, engine, text, entries, t);
    lemma_find_query(ma.queries, text, eid);
    assert(1 <= qid <= mb.queries.len());
    assert(find_query(mb.queries, text, eid) == Some(qid - 1)) by {
        if find_query(ma.queries, text, eid) is None {
            lemma_find_query(mb.queries, text, eid);
            assert(mb.queries[qid - 1].text == text && mb.queries[qid - 1].engine_id == eid);
            match find_query(mb.queries, text, eid) {
                Some(i) => {
                    if i < qid - 1 {
                        assert(mb.queries[i] == ma.queries[i]);
                        assert(false);
                    }
                },
                None => {
                    assert(false);
                },
            }
        }
    }
    lemma_upsert_result_entries_props(mb, qid, entries);
    assert(mo == upsert_result_entries(mb, qid, entries));
    // the engine is still registered, so the second resolve is a no-op
    assert(mo.engines == ma.engines);
    lemma_find_engine(ma.engines, engine);
    assert(find_engine(ma.engines, engine) == Some(eid - 1)) by {
        if find_engine(m.engines, engine) is None {
            assert(ma.engines.drop_last() =~= m.engines);
            assert(ma.engines.last() == engine);
        }
    }
    assert(register_engine(mo, engine) == mo) by {
        assert(find_engine(mo.engines, engine) is Some);
        assert(register_engine(mo, engine) =~= mo);
    }
    assert(engine_id_in(mo, engine) == eid);
    // the query row is still there under the same id
    lemma_find_query_same_keys(mo.queries, mb.queries, text, eid);
    assert(find_query(mo.queries, text, eid) == Some(qid - 1));
    assert(ensure_query(mo, text, eid, t) == mo) by {
        assert(ensure_query(mo, text, eid, t) =~= mo);
    }
    assert(upsert_qid(mo, engine, text) == qid);
    // and the second fold changes nothing
    lemma_upsert_result_entries_noop(mo, qid, entries);
    assert(upsert_results_model(mo, engine, text, entries, t) == mo);
}

/// Folding a page of fresh, pairwise-distinct URLs appends its rows to the
/// result table and appends one link per row at the end of the query's
/// link list, in page order.
proof fn lemma_upsert_result_entries_fresh(
    m: StoreModel,
    qid: int,
    entries: Seq<RowModel>,
)
    requires
        1 <= qid <= m.queries.len(),
        wf_links(m.queries[qid - 1].result_links, m.results.len() as int),
        forall|k: int|
            0 <= k < entries.len() ==> find_result(m.results, (#[trigger] entries[k]).url)
                is None,
        forall|k1: int, k2: int|
            0 <= k1 < k2 < entries.len() ==> (#[trigger] entries[k1]).url != (
            #[trigger] entries[k2]).url,
    ensures
        ({
            let mo = upsert_result_entries(m, qid, entries);
            &&& mo.engines == m.engines
            &&& mo.images == m.images
            &&& mo.queries.len() == m.queries.len()
            &&& forall|j: int|
                0 <= j < m.queries.len() && j != qid - 1 ==> mo.queries[j] == m.queries[j]
            &&& mo.queries[qid - 1].text == m.queries[qid - 1].text
            &&& mo.queries[qid - 1].engine_id == m.queries[qid - 1].engine_id
            &&& mo.queries[qid - 1].fetched_at == m.queries[qid - 1].fetched_at
            &&& mo.queries[qid - 1].image_links == m.queries[qid - 1].image_links
            &&& mo.results == m.results + entries
            &&& mo.queries[qid - 1].result_links == m.queries[qid - 1].result_links + Seq::new(
                entries.len(),
                |k: int|
                    LinkModel {
                        target_id: m.results.len() + 1 + k,
                        position: m.queries[qid - 1].result_links.len() + k,
                    },
            )
        }),
    decreases entries.len(),
{
    let links = m.queries[qid - 1].result_links;
    let mo = upsert_result_entries(m, qid, entries);
    if entries.len() == 0 {
        assert(m.results + entries =~= m.results);
        assert(links + Seq::new(
            0,
            |k: int| LinkModel { target_id: m.results.len() + 1 + k, position: links.len() + k },
        ) =~= links);
    } else {
        let m1 = upsert_result_step(m, qid, entries[0]);
        lemma_find_result(m.results, entries[0].url);
        assert(m1.results == m.results.push(entries[0]));
        let id = m.results.len() as int + 1;
        assert(result_id_for(m.results, entries[0].url) == id);
        let nl = LinkModel { target_id: id, position: links.len() as int };
        assert(!has_link(links, id)) by {
            if has_link(links, id) {
                let w = choose|w: int| 0 <= w < links.len() && links[w].target_id == id;
                assert(links[w].target_id <= m.results.len());
            }
        }
        assert(m1.queries[qid - 1].result_links == links.push(nl));
        // the remaining entries are still fresh and distinct
        assert forall|k: int| 0 <= k < entries.drop_first().len() implies find_result(
            m1.results,
            (#[trigger] entries.drop_first()[k]).url,
        ) is None by {
            assert(entries.drop_first()[k] == entries[k + 1]);
            assert(m1.results.drop_last() =~= m.results);
            assert(entries[k + 1].url != entries[0].url);
        }
        assert forall|k1: int, k2: int|
            0 <= k1 < k2 < entries.drop_first().len() implies (
        #[trigger] entries.drop_first()[k1]).url != (#[trigger] entries.drop_first()[k2]).url by {
            assert(entries.drop_first()[k1] == entries[k1 + 1]);
            assert(entries.drop_first()[k2] == entries[k2 + 1]);
        }
        assert(wf_links(links.push(nl), m1.results.len() as int)) by {
            assert(forall|j: int|
                0 <= j < links.len() ==> links.push(nl)[j] == links[j]);
            assert(links.push(nl)[links.len() as int] == nl);
            assert forall|i: int, j: int|
                0 <= i < j < links.push(nl).len() implies (#[trigger] links.push(nl)[i]).target_id
                != (#[trigger] links.push(nl)[j]).target_id by {
                if j == links.len() {
                    assert(links[i].target_id <= m.results.len());
                }
            }
        }
        lemma_upsert_result_entries_fresh(m1, qid, entries.drop_first());
        assert(mo == upsert_result_entries(m1, qid, entries.drop_first()));
        assert(mo.results =~= m.results + entries) by {
            assert(mo.results == m1.results + entries.drop_first());
            assert forall|j: int| 0 <= j < m.results.len() + entries.len() implies (m1.results
                + entries.drop_first())[j] == (m.results + entries)[j] by {
                if j < m.results.len() {
                } else if j == m.results.len() {
                    assert((m1.results + entries.drop_first())[j] == m1.results[j]);
                } else {
                    assert((m1.results + entries.drop_first())[j] == entries.drop_first()[j
                        - m.results.len() - 1]);
                    assert(entries.drop_first()[j - m.results.len() - 1] == entries[j
                        - m.results.len()]);
                }
            }
        }
        let newlinks = Seq::new(
            entries.len(),
            |k: int| LinkModel { target_id: m.results.len() + 1 + k, position: links.len() + k },
        );
        let newlinks1 = Seq::new(
            entries.drop_first().len(),
            |k: int|
                LinkModel {
                    target_id: m1.results.len() + 1 + k,
                    position: links.len() + 1 + k,
                },
        );
        assert(mo.queries[qid - 1].result_links =~= links + newlinks) by {
            assert(mo.queries[qid - 1].result_links == links.push(nl) + newlinks1);
            assert forall|j: int| 0 <= j < links.len() + entries.len() implies (links.push(nl)
                + newlinks1)[j] == (links + newlinks)[j] by {
                if j < links.len() {
                    assert((links.push(nl) + newlinks1)[j] == links.push(nl)[j]);
                    assert(links.push(nl)[j] == links[j]);
                } else if j == links.len() {
                    assert((links.push(nl) + newlinks1)[j] == links.push(nl)[j]);
                    assert(links.push(nl)[j] == nl);
                    assert((links + newlinks)[j] == newlinks[0]);
                } else {
                    assert((links.push(nl) + newlinks1)[j] == newlinks1[j - links.len() - 1]);
                    assert((links + newlinks)[j] == newlinks[j - links.len()]);
                }
            }
        }
    }
}

/// Append-only ordering: upserting page A and then page B for the same
/// fresh query leaves the query's cached rows equal to A followed by B,
/// each page in its original order.
pub proof fn lemma_upsert_results_append_ordering(
    m: StoreModel,
    engine: Seq<char>,
    text: Seq<char>,
    a: Seq<RowModel>,
    b: Seq<RowModel>,
    t1: int,
    t2: int,
)
    requires
        wf_model(m),
        find_query(m.queries, text, engine_id_in(m, engine)) is None,
        forall|k1: int, k2: int|
            0 <= k1 < k2 < (a + b).len() ==> ((a + b)[k1]).url != ((a + b)[k2]).url,
        forall|k: int| 0 <= k < (a + b).len() ==> find_result(m.results, ((a + b)[k]).url) is None,
    ensures
        ({
            let ma = upsert_results_model(m, engine, text, a, t1);
            let mb = upsert_results_model(ma, engine, text, b, t2);
            let qid = upsert_qid(m, engine, text);
            &&& upsert_qid(ma, engine, text) == qid
            &&& cached_results_of(mb, qid) == a + b
        }),
{
    let m1 = register_engine(m, engine);
    let eid = engine_id_in(m, engine);
    let m2 = ensure_query(m1, text, eid, t1);
    let qid = upsert_qid(m, engine, text);
    let ma = upsert_results_model(m, engine, text, a, t1);
    lemma_find_engine(m.engines, engine);
    lemma_find_query(m1.queries, text, eid);
    assert(qid == m.queries.len() + 1);
    assert(m2.queries[qid - 1].text == text && m2.queries[qid - 1].engine_id == eid);
    assert(m2.queries[qid - 1].result_links =~= Seq::<LinkModel>::empty());
    // phase A appends a's rows and one link per row
    assert forall|k: int| 0 <= k < a.len() implies find_result(
        m2.results,
        (#[trigger] a[k]).url,
    ) is None by {
        assert((a + b)[k] == a[k]);
    }
    assert forall|k1: int, k2: int| 0 <= k1 < k2 < a.len() implies (#[trigger] a[k1]).url != (
    #[trigger] a[k2]).url by {
        assert((a + b)[k1] == a[k1]);
        assert((a + b)[k2] == a[k2]);
    }
    assert(wf_links(m2.queries[qid - 1].result_links, m2.results.len() as int));
    lemma_upsert_result_entries_fresh(m2, qid, a);
    assert(ma == upsert_result_entries(m2, qid, a));
    let links_a = Seq::new(
        a.len(),
        |k: int| LinkModel { target_id: m.results.len() + 1 + k, position: k },
    );
    assert(ma.queries[qid - 1].result_links =~= links_a);
    assert(ma.results == m.results + a);
    // phase B resolves the same engine and query
    assert(find_engine(ma.engines, engine) == Some(eid - 1)) by {
        if find_engine(m.engines, engine) is None {
            assert(m1.engines.drop_last() =~= m.engines);
            assert(m1.engines.last() == engine);
        }
        assert(ma.engines == m1.engines);
    }
    assert(register_engine(ma, engine) =~= ma);
    assert(engine_id_in(ma, engine) == eid);
    assert(find_query(ma.queries, text, eid) == Some(qid - 1)) by {
        lemma_find_query_same_keys(ma.queries, m2.queries, text, eid);
        lemma_find_query(m2.queries, text, eid);
        match find_query(m2.queries, text, eid) {
            Some(i) => {
                if i < qid - 1 {
                    assert(m2.queries[i] == m1.queries[i]);
                    assert(false);
                }
            },
            None => {
                assert(false);
            },
        }
    }
    assert(ensure_query(ma, text, eid, t2) =~= ma);
    assert(upsert_qid(ma, engine, text) == qid);
    let mb = upsert_results_model(ma, engine, text, b, t2);
    assert(mb == upsert_result_entries(ma, qid, b));
    // phase B appends b's rows after a's
    assert forall|k: int| 0 <= k < b.len() implies find_result(
        ma.results,
        (#[trigger] b[k]).url,
    ) is None by {
        assert((a + b)[a.len() + k] == b[k]);
        lemma_find_result(ma.results, b[k].url);
        match find_result(ma.results, b[k].url) {
            Some(i) => {
                if i < m.results.len() {
                    lemma_find_result(m.results, b[k].url);
                    assert(m.results[i] == ma.results[i]);
                    assert(find_result(m.results, b[k].url) is None);
                    assert(false);
                } else {
                    assert(ma.results[i] == a[i - m.results.len()]);
                    assert((a + b)[i - m.results.len()] == a[i - m.results.len()]);
                    assert(false);
                }
            },
            None => {},
        }
    }
    assert forall|k1: int, k2: int| 0 <= k1 < k2 < b.len() implies (#[trigger] b[k1]).url != (
    #[trigger] b[k2]).url by {
        assert((a + b)[a.len() + k1] == b[k1]);
        assert((a + b)[a.len() + k2] == b[k2]);
    }
    assert(wf_links(links_a, ma.results.len() as int));
    lemma_upsert_result_entries_fresh(ma, qid, b);
    let links_b = Seq::new(
        b.len(),
        |k: int| LinkModel { target_id: ma.results.len() + 1 + k, position: a.len() + k },
    );
    assert(mb.results == ma.results + b);
    assert(mb.queries[qid - 1].result_links == links_a + links_b);
    // the cached view is exactly a followed by b
    assert(cached_results_of(mb, qid) =~= a + b) by {
        assert(1 <= qid <= mb.queries.len());
        let lt = links_a + links_b;
        assert forall|k: int| 0 <= k < lt.len() implies links_to_rows(lt, mb.results)[k] == (a
            + b)[k] by {
            if k < a.len() {
                assert(lt[k] == links_a[k]);
                assert(mb.results =~= m.results + a + b);
                assert(mb.results[m.results.len() + k] == a[k]);
            } else {
                assert(lt[k] == links_b[k - a.len()]);
                assert(mb.results =~= m.results + a + b);
                assert(mb.results[ma.results.len() + (k - a.len())] == b[k - a.len()]);
            }
        }
    }
}

/// Global dedup: upserting a page with one fresh URL under two distinct
/// queries creates exactly one result row, and each query gets its own
/// link to that one row.
pub proof fn lemma_upsert_results_global_dedup(
    m: StoreModel,
    engine1: Seq<char>,
    text1: Seq<char>,
    t1: int,
    engine2: Seq<char>,
    text2: Seq<char>,
    t2: int,
    row: RowModel,
)
    requires
        wf_model(m),
        text1 != text2,
        find_result(m.results, row.url) is None,
    ensures
        ({
            let ma = upsert_results_model(m, engine1, text1, seq![row], t1);
            let mb = upsert_results_model(ma, engine2, text2, seq![row], t2);
            let q1 = upsert_qid(m, engine1, text1);
            let q2 = upsert_qid(ma, engine2, text2);
            let id = m.results.len() as int + 1;
            &&& mb.results == m.results.push(row)
            &&& q1 != q2
            &&& has_link(mb.queries[q1 - 1].result_links, id)
            &&& has_link(mb.queries[q2 - 1].result_links, id)
        }),
{
    let id = m.results.len() as int + 1;
    // phase A: the row is new, so it is appended and linked to query 1
    let ma1 = register_engine(m, engine1);
    let eid1 = engine_id_in(m, engine1);
    let ma2 = ensure_query(ma1, text1, eid1, t1);
    let q1 = upsert_qid(m, engine1, text1);
    let ma = upsert_results_model(m, engine1, text1, seq![row], t1);
    lemma_find_query(ma1.queries, text1, eid1);
    assert(1 <= q1 <= ma2.queries.len());
    assert(ma2.queries[q1 - 1].text == text1);
    assert(ma == upsert_result_entries(ma2, q1, seq![row]));
    let sa = upsert_result_step(ma2, q1, row);
    assert(seq![row].drop_first() =~= Seq::<RowModel>::empty());
    assert(seq![row][0] == row);
    assert(upsert_result_entries(sa, q1, seq![row].drop_first()) == sa);
    assert(ma == sa);
    assert(result_id_for(ma2.results, row.url) == id);
    assert(ma.results == m.results.push(row));
    lemma_upsert_result_step_props(ma2, q1, row);
    assert(has_link(ma.queries[q1 - 1].result_links, id));
    assert(ma.queries[q1 - 1].text == text1);
    assert(forall|j: int|
        0 <= j < ma2.queries.len() && j != q1 - 1 ==> ma.queries[j] == ma2.queries[j]);
    // phase B: the row is found, so only a link to query 2 is added
    let mb1 = register_engine(ma, engine2);
    let eid2 = engine_id_in(ma, engine2);
    let mb2 = ensure_query(mb1, text2, eid2, t2);
    let q2 = upsert_qid(ma, engine2, text2);
    let mb = upsert_results_model(ma, engine2, text2, seq![row], t2);
    lemma_find_query(mb1.queries, text2, eid2);
    assert(1 <= q2 <= mb2.queries.len());
    assert(mb2.queries[q2 - 1].text == text2);
    assert(mb == upsert_result_entries(mb2, q2, seq![row]));
    let sb = upsert_result_step(mb2, q2, row);
    assert(upsert_result_entries(sb, q2, seq![row].drop_first()) == sb);
    assert(mb == sb);
    assert(find_result(mb2.results, row.url) == Some(id - 1)) by {
        assert(mb2.results == m.results.push(row));
        assert(m.results.push(row).drop_last() =~= m.results);
        assert(m.results.push(row).last() == row);
    }
    assert(result_id_for(mb2.results, row.url) == id);
    assert(mb.results == mb2.results);
    assert(mb.results == m.results.push(row));
    lemma_upsert_result_step_props(mb2, q2, row);
    assert(has_link(mb.queries[q2 - 1].result_links, id));
    // the two queries are distinct rows, and query 1 keeps its link
    assert(mb2.queries[q2 - 1].text == text2);
    assert(mb.queries[q1 - 1].text == text1) by {
        if q1 - 1 != q2 - 1 {
            assert(mb.queries[q1 - 1] == mb2.queries[q1 - 1]);
            assert(mb2.queries[q1 - 1].text == ma.queries[q1 - 1].text);
        }
    }
    assert(q1 != q2);
    assert(has_link(mb.queries[q1 - 1].result_links, id)) by {
        assert(mb.queries[q1 - 1] == mb2.queries[q1 - 1]);
        assert(mb2.queries[q1 - 1].result_links == ma.queries[q1 - 1].result_links);
    }
}
/// Page coverage: after an upsert, every entry of the page — fresh or
/// repeated, alone or among others — has a result row (one row per URL,
/// by the store's invariant) and is linked to the upserted query at the
/// row its URL resolves to; every other query and the rows already stored
/// are untouched. With `lemma_upsert_results_global_dedup` this carries
/// global dedup to pages of any mix.
pub proof fn lemma_upsert_results_covers(
    m: StoreModel,
    engine: Seq<char>,
    text: Seq<char>,
    entries: Seq<RowModel>,
    t: int,
)
    ensures
        ({
            let mo = upsert_results_model(m, engine, text, entries, t);
            let qid = upsert_qid(m, engine, text);
            &&& forall|k: int|
                0 <= k < entries.len() ==> find_result(
                    mo.results,
                    (#[trigger] entries[k]).url,
                ) is Some
            &&& forall|k: int|
                0 <= k < entries.len() ==> has_link(
                    mo.queries[qid - 1].result_links,
                    result_id_for(mo.results, (#[trigger] entries[k]).url),
                )
            &&& m.results.len() <= mo.results.len()
            &&& mo.results.take(m.results.len() as int) == m.results
            &&& forall|j: int|
                0 <= j < m.queries.len() && j != qid - 1 ==> mo.queries[j] == m.queries[j]
        }),
{
    let m1 = register_engine(m, engine);
    let eid = engine_id_in(m, engine);
    let m2 = ensure_query(m1, text, eid, t);
    let qid = upsert_qid(m, engine, text);
    lemma_find_query(m1.queries, text, eid);
    assert(1 <= qid <= m2.queries.len());
    lemma_upsert_result_entries_props(m2, qid, entries);
    let mo = upsert_results_model(m, engine, text, entries, t);
    assert(mo == upsert_result_entries(m2, qid, entries));
    assert(m2.results == m.results);
    assert forall|j: int| 0 <= j < m.queries.len() && j != qid - 1 implies mo.queries[j]
        == m.queries[j] by {
        assert(m2.queries[j] == m.queries[j]);
    }
}

// ---------------------------------------------------------------------------
// The image twins of the store's laws.
// ---------------------------------------------------------------------------

/// `find_image` is stable under appending image rows once it has found its row.
proof fn lemma_find_image_extend(a: Seq<ImageModel>, b: Seq<ImageModel>, url: Seq<char>)
    requires
        a.len() <= b.len(),
        b.take(a.len() as int) == a,
        find_image(a, url) is Some,
    ensures
        find_image(b, url) == find_image(a, url),
    decreases b.len(),
{
    if b.len() == a.len() {
        assert(b.take(a.len() as int) =~= b);
    } else {
        assert(b.drop_last().take(a.len() as int) =~= b.take(a.len() as int));
        lemma_find_image_extend(a, b.drop_last(), url);
    }
}

/// What one image upsert step does and does not touch.
proof fn lemma_upsert_image_step_props(m: StoreModel, qid: int, row: ImageModel)
    requires
        1 <= qid <= m.queries.len(),
    ensures
        ({
            let mo = upsert_image_step(m, qid, row);
            &&& mo.engines == m.engines
            &&& mo.results == m.results
            &&& mo.queries.len() == m.queries.len()
            &&& forall|j: int|
                0 <= j < m.queries.len() && j != qid - 1 ==> mo.queries[j] == m.queries[j]
            &&& mo.queries[qid - 1].text == m.queries[qid - 1].text
            &&& mo.queries[qid - 1].engine_id == m.queries[qid - 1].engine_id
            &&& mo.queries[qid - 1].fetched_at == m.queries[qid - 1].fetched_at
            &&& mo.queries[qid - 1].result_links == m.queries[qid - 1].result_links
            &&& mo.images == add_image(m.images, row)
            &&& m.images.len() <= mo.images.len() <= m.images.len() + 1
            &&& mo.images.take(m.images.len() as int) == m.images
            &&& find_image(mo.images, row.url) is Some
            &&& has_link(mo.queries[qid - 1].image_links, image_id_for(m.images, row.url))
            &&& forall|t: int|
                #[trigger] has_link(m.queries[qid - 1].image_links, t) ==> has_link(
                    mo.queries[qid - 1].image_links,
                    t,
                )
        }),
{
    let mo = upsert_image_step(m, qid, row);
    let rs = add_image(m.images, row);
    lemma_find_image(m.images, row.url);
    if find_image(m.images, row.url) is None {
        assert(rs.take(m.images.len() as int) =~= m.images);
        assert(rs.drop_last() =~= m.images);
        assert(find_image(rs, row.url) is Some);
    } else {
        assert(rs.take(m.images.len() as int) =~= m.images);
    }
    let id = image_id_for(m.images, row.url);
    let links = m.queries[qid - 1].image_links;
    let nlinks = add_link(links, id);
    if !has_link(links, id) {
        let nl = LinkModel { target_id: id, position: links.len() as int };
        assert(links.push(nl)[links.len() as int] == nl);
        assert(has_link(nlinks, id));
        assert forall|t: int| has_link(links, t) implies has_link(nlinks, t) by {
            let w = choose|w: int| 0 <= w < links.len() && links[w].target_id == t;
            assert(nlinks[w] == links[w]);
        }
    }
}

/// After folding a page in, every entry's URL has a row and that row is
/// linked to the query; nothing else moves.
proof fn lemma_upsert_image_entries_props(
    m: StoreModel,
    qid: int,
    entries: Seq<ImageModel>,
)
    requires
        1 <= qid <= m.queries.len(),
    ensures
        ({
            let mo = upsert_image_entries(m, qid, entries);
            &&& mo.engines == m.engines
            &&& mo.results == m.results
            &&& mo.queries.len() == m.queries.len()
            &&& forall|j: int|
                0 <= j < m.queries.len() && j != qid - 1 ==> mo.queries[j] == m.queries[j]
            &&& mo.queries[qid - 1].text == m.queries[qid - 1].text
            &&& mo.queries[qid - 1].engine_id == m.queries[qid - 1].engine_id
            &&& mo.queries[qid - 1].fetched_at == m.queries[qid - 1].fetched_at
            &&& mo.queries[qid - 1].result_links == m.queries[qid - 1].result_links
            &&& m.images.len() <= mo.images.len()
            &&& mo.images.take(m.images.len() as int) == m.images
            &&& forall|k: int|
                0 <= k < entries.len() ==> find_image(
                    mo.images,
                    (#[trigger] entries[k]).url,
                ) is Some
            &&& forall|k: int|
                0 <= k < entries.len() ==> has_link(
                    mo.queries[qid - 1].image_links,
                    image_id_for(mo.images, (#[trigger] entries[k]).url),
                )
            &&& forall|t: int|
                #[trigger] has_link(m.queries[qid - 1].image_links, t) ==> has_link(
                    mo.queries[qid - 1].image_links,
                    t,
                )
        }),
    decreases entries.len(),
{
    if entries.len() == 0 {
        assert(upsert_image_entries(m, qid, entries) == m);
        assert(m.images.take(m.images.len() as int) =~= m.images);
    } else {
        let m1 = upsert_image_step(m, qid, entries[0]);
        lemma_upsert_image_step_props(m, qid, entries[0]);
        lemma_upsert_image_entries_props(m1, qid, entries.drop_first());
        let mo = upsert_image_entries(m, qid, entries);
        assert(mo == upsert_image_entries(m1, qid, entries.drop_first()));
        // the prefix of the original results is preserved through both hops
        assert(mo.images.take(m.images.len() as int) =~= m.images) by {
            assert(mo.images.take(m1.images.len() as int) == m1.images);
            assert forall|j: int| 0 <= j < m.images.len() implies mo.images.take(
                m.images.len() as int,
            )[j] == m.images[j] by {
                assert(mo.images.take(m1.images.len() as int)[j] == m1.images[j]);
                assert(m1.images.take(m.images.len() as int)[j] == m.images[j]);
            }
        }
        // entry 0 stays found and linked
        assert(find_image(mo.images, entries[0].url) is Some) by {
            lemma_find_image_extend(m1.images, mo.images, entries[0].url);
        }
        assert(has_link(
            mo.queries[qid - 1].image_links,
            image_id_for(mo.images, entries[0].url),
        )) by {
            lemma_find_image_extend(m1.images, mo.images, entries[0].url);
            assert(image_id_for(mo.images, entries[0].url) == image_id_for(
                m1.images,
                entries[0].url,
            ));
            assert(image_id_for(m1.images, entries[0].url) == image_id_for(
                m.images,
                entries[0].url,
            )) by {
                lemma_find_image(m.images, entries[0].url);
                if find_image(m.images, entries[0].url) is None {
                    assert(m1.images == add_image(m.images, entries[0]));
                    assert(m1.images.drop_last() =~= m.images);
                } else {
                    lemma_find_image_extend(m.images, m1.images, entries[0].url);
                }
            }
        }
        assert forall|k: int| 0 <= k < entries.len() implies find_image(
            mo.images,
            (#[trigger] entries[k]).url,
        ) is Some by {
            if k > 0 {
                assert(entries[k] == entries.drop_first()[k - 1]);
            }
        }
        assert forall|k: int| 0 <= k < entries.len() implies has_link(
            mo.queries[qid - 1].image_links,
            image_id_for(mo.images, (#[trigger] entries[k]).url),
        ) by {
            if k > 0 {
                assert(entries[k] == entries.drop_first()[k - 1]);
            }
        }
        assert forall|t: int| #[trigger] has_link(m.queries[qid - 1].image_links, t) implies
            has_link(mo.queries[qid - 1].image_links, t) by {
            assert(has_link(m1.queries[qid - 1].image_links, t));
        }
    }
}

/// A page whose entries are all present and all linked folds to nothing.
proof fn lemma_upsert_image_entries_noop(
    m: StoreModel,
    qid: int,
    entries: Seq<ImageModel>,
)
    requires
        1 <= qid <= m.queries.len(),
        forall|k: int|
            0 <= k < entries.len() ==> find_image(m.images, (#[trigger] entries[k]).url)
                is Some,
        forall|k: int|
            0 <= k < entries.len() ==> has_link(
                m.queries[qid - 1].image_links,
                image_id_for(m.images, (#[trigger] entries[k]).url),
            ),
    ensures
        upsert_image_entries(m, qid, entries) == m,
    decreases entries.len(),
{
    if entries.len() > 0 {
        let m1 = upsert_image_step(m, qid, entries[0]);
        assert(m1 == m) by {
            assert(add_image(m.images, entries[0]) == m.images);
            let id = image_id_for(m.images, entries[0].url);
            let q = m.queries[qid - 1];
            assert(has_link(q.image_links, id));
            assert(add_link(q.image_links, id) == q.image_links);
            assert(QueryModel { image_links: q.image_links, ..q } =~= q);
            assert(m.queries.update(qid - 1, q) =~= m.queries);
            assert(m1 =~= m);
        }
        assert(forall|k: int|
            0 <= k < entries.len() - 1 ==> entries.drop_first()[k] == entries[k + 1]);
        lemma_upsert_image_entries_noop(m, qid, entries.drop_first());
        assert(upsert_image_entries(m, qid, entries) == upsert_image_entries(
            m1,
            qid,
            entries.drop_first(),
        ));
    }
}

/// Idempotence for images: repeating an image upsert with identical
/// arguments resolves to the same query id and leaves the store exactly
/// as the first upsert left it; a repeated page counts no fresh URLs, so
/// the executable retry always fits and is a no-op.
pub proof fn lemma_upsert_images_idempotent(
    m: StoreModel,
    engine: Seq<char>,
    text: Seq<char>,
    entries: Seq<ImageModel>,
    t: int,
)
    ensures
        ({
            let mo = upsert_images_model(m, engine, text, entries, t);
            &&& upsert_qid(mo, engine, text) == upsert_qid(m, engine, text)
            &&& upsert_images_model(mo, engine, text, entries, t) == mo
        }),
{
    let ma = register_engine(m, engine);
    let eid = engine_id_in(m, engine);
    let mb = ensure_query(ma, text, eid, t);
    let qid = upsert_qid(m, engine, text);
    let mo = upsert_images_model(m, engine, text, entries, t);
    lemma_find_query(ma.queries, text, eid);
    assert(1 <= qid <= mb.queries.len());
    assert(find_query(mb.queries, text, eid) == Some(qid - 1)) by {
        if find_query(ma.queries, text, eid) is None {
            lemma_find_query(mb.queries, text, eid);
            assert(mb.queries[qid - 1].text == text && mb.queries[qid - 1].engine_id == eid);
            match find_query(mb.queries, text, eid) {
                Some(i) => {
                    if i < qid - 1 {
                        assert(mb.queries[i] == ma.queries[i]);
                        assert(false);
                    }
                },
                None => {
                    assert(false);
                },
            }
        }
    }
    lemma_upsert_image_entries_props(mb, qid, entries);
    assert(mo == upsert_image_entries(mb, qid, entries));
    // the engine is still registered, so the second resolve is a no-op
    assert(mo.engines == ma.engines);
    lemma_find_engine(ma.engines, engine);
    assert(find_engine(ma.engines, engine) == Some(eid - 1)) by {
        if find_engine(m.engines, engine) is None {
            assert(ma.engines.drop_last() =~= m.engines);
            assert(ma.engines.last() == engine);
        }
    }
    assert(register_engine(mo, engine) == mo) by {
        assert(find_engine(mo.engines, engine) is Some);
        assert(register_engine(mo, engine) =~= mo);
    }
    assert(engine_id_in(mo, engine) == eid);
    // the query row is still there under the same id
    lemma_find_query_same_keys(mo.queries, mb.queries, text, eid);
    assert(find_query(mo.queries, text, eid) == Some(qid - 1));
    assert(ensure_query(mo, text, eid, t) == mo) by {
        assert(ensure_query(mo, text, eid, t) =~= mo);
    }
    assert(upsert_qid(mo, engine, text) == qid);
    // and the second fold changes nothing
    lemma_upsert_image_entries_noop(mo, qid, entries);
    assert(upsert_images_model(mo, engine, text, entries, t) == mo);
}

/// Folding a page of fresh, pairwise-distinct URLs appends its rows to the
/// image table and appends one link per row at the end of the query's
/// link list, in page order.
proof fn lemma_upsert_image_entries_fresh(
    m: StoreModel,
    qid: int,
    entries: Seq<ImageModel>,
)
    requires
        1 <= qid <= m.queries.len(),
        wf_links(m.queries[qid - 1].image_links, m.images.len() as int),
        forall|k: int|
            0 <= k < entries.len() ==> find_image(m.images, (#[trigger] entries[k]).url)
                is None,
        forall|k1: int, k2: int|
            0 <= k1 < k2 < entries.len() ==> (#[trigger] entries[k1]).url != (
            #[trigger] entries[k2]).url,
    ensures
        ({
            let mo = upsert_image_entries(m, qid, entries);
            &&& mo.engines == m.engines
            &&& mo.results == m.results
            &&& mo.queries.len() == m.queries.len()
            &&& forall|j: int|
                0 <= j < m.queries.len() && j != qid - 1 ==> mo.queries[j] == m.queries[j]
            &&& mo.queries[qid - 1].text == m.queries[qid - 1].text
            &&& mo.queries[qid - 1].engine_id == m.queries[qid - 1].engine_id
            &&& mo.queries[qid - 1].fetched_at == m.queries[qid - 1].fetched_at
            &&& mo.queries[qid - 1].result_links == m.queries[qid - 1].result_links
            &&& mo.images == m.images + entries
            &&& mo.queries[qid - 1].image_links == m.queries[qid - 1].image_links + Seq::new(
                entries.len(),
                |k: int|
                    LinkModel {
                        target_id: m.images.len() + 1 + k,
                        position: m.queries[qid - 1].image_links.len() + k,
                    },
            )
        }),
    decreases entries.len(),
{
    let links = m.queries[qid - 1].image_links;
    let mo = upsert_image_entries(m, qid, entries);
    if entries.len() == 0 {
        assert(m.images + entries =~= m.images);
        assert(links + Seq::new(
            0,
            |k: int| LinkModel { target_id: m.images.len() + 1 + k, position: links.len() + k },
        ) =~= links);
    } else {
        let m1 = upsert_image_step(m, qid, entries[0]);
        lemma_find_image(m.images, entries[0].url);
        assert(m1.images == m.images.push(entries[0]));
        let id = m.images.len() as int + 1;
        assert(image_id_for(m.images, entries[0].url) == id);
        let nl = LinkModel { target_id: id, position: links.len() as int };
        assert(!has_link(links, id)) by {
            if has_link(links, id) {
                let w = choose|w: int| 0 <= w < links.len() && links[w].target_id == id;
                assert(links[w].target_id <= m.images.len());
            }
        }
        assert(m1.queries[qid - 1].image_links == links.push(nl));
        // the remaining entries are still fresh and distinct
        assert forall|k: int| 0 <= k < entries.drop_first().len() implies find_image(
            m1.images,
            (#[trigger] entries.drop_first()[k]).url,
        ) is None by {
            assert(entries.drop_first()[k] == entries[k + 1]);
            assert(m1.images.drop_last() =~= m.images);
            assert(entries[k + 1].url != entries[0].url);
        }
        assert forall|k1: int, k2: int|
            0 <= k1 < k2 < entries.drop_first().len() implies (
        #[trigger] entries.drop_first()[k1]).url != (#[trigger] entries.drop_first()[k2]).url by {
            assert(entries.drop_first()[k1] == entries[k1 + 1]);
            assert(entries.drop_first()[k2] == entries[k2 + 1]);
        }
        assert(wf_links(links.push(nl), m1.images.len() as int)) by {
            assert(forall|j: int|
                0 <= j < links.len() ==> links.push(nl)[j] == links[j]);
            assert(links.push(nl)[links.len() as int] == nl);
            assert forall|i: int, j: int|
                0 <= i < j < links.push(nl).len() implies (#[trigger] links.push(nl)[i]).target_id
                != (#[trigger] links.push(nl)[j]).target_id by {
                if j == links.len() {
                    assert(links[i].target_id <= m.images.len());
                }
            }
        }
        lemma_upsert_image_entries_fresh(m1, qid, entries.drop_first());
        assert(mo == upsert_image_entries(m1, qid, entries.drop_first()));
        assert(mo.images =~= m.images + entries) by {
            assert(mo.images == m1.images + entries.drop_first());
            assert forall|j: int| 0 <= j < m.images.len() + entries.len() implies (m1.images
                + entries.drop_first())[j] == (m.images + entries)[j] by {
                if j < m.images.len() {
                } else if j == m.images.len() {
                    assert((m1.images + entries.drop_first())[j] == m1.images[j]);
                } else {
                    assert((m1.images + entries.drop_first())[j] == entries.drop_first()[j
                        - m.images.len() - 1]);
                    assert(entries.drop_first()[j - m.images.len() - 1] == entries[j
                        - m.images.len()]);
                }
            }
        }
        let newlinks = Seq::new(
            entries.len(),
            |k: int| LinkModel { target_id: m.images.len() + 1 + k, position: links.len() + k },
        );
        let newlinks1 = Seq::new(
            entries.drop_first().len(),
            |k: int|
                LinkModel {
                    target_id: m1.images.len() + 1 + k,
                    position: links.len() + 1 + k,
                },
        );
        assert(mo.queries[qid - 1].image_links =~= links + newlinks) by {
            assert(mo.queries[qid - 1].image_links == links.push(nl) + newlinks1);
            assert forall|j: int| 0 <= j < links.len() + entries.len() implies (links.push(nl)
                + newlinks1)[j] == (links + newlinks)[j] by {
                if j < links.len() {
                    assert((links.push(nl) + newlinks1)[j] == links.push(nl)[j]);
                    assert(links.push(nl)[j] == links[j]);
                } else if j == links.len() {
                    assert((links.push(nl) + newlinks1)[j] == links.push(nl)[j]);
                    assert(links.push(nl)[j] == nl);
                    assert((links + newlinks)[j] == newlinks[0]);
                } else {
                    assert((links.push(nl) + newlinks1)[j] == newlinks1[j - links.len() - 1]);
                    assert((links + newlinks)[j] == newlinks[j - links.len()]);
                }
            }
        }
    }
}

/// Append-only ordering for images: upserting image page A and then
/// page B for the same fresh query leaves the query's cached image rows
/// equal to A followed by B, each page in its original order.
pub proof fn lemma_upsert_images_append_ordering(
    m: StoreModel,
    engine: Seq<char>,
    text: Seq<char>,
    a: Seq<ImageModel>,
    b: Seq<ImageModel>,
    t1: int,
    t2: int,
)
    requires
        wf_model(m),
        find_query(m.queries, text, engine_id_in(m, engine)) is None,
        forall|k1: int, k2: int|
            0 <= k1 < k2 < (a + b).len() ==> ((a + b)[k1]).url != ((a + b)[k2]).url,
        forall|k: int| 0 <= k < (a + b).len() ==> find_image(m.images, ((a + b)[k]).url) is None,
    ensures
        ({
            let ma = upsert_images_model(m, engine, text, a, t1);
            let mb = upsert_images_model(ma, engine, text, b, t2);
            let qid = upsert_qid(m, engine, text);
            &&& upsert_qid(ma, engine, text) == qid
            &&& cached_images_of(mb, qid) == a + b
        }),
{
    let m1 = register_engine(m, engine);
    let eid = engine_id_in(m, engine);
    let m2 = ensure_query(m1, text, eid, t1);
    let qid = upsert_qid(m, engine, text);
    let ma = upsert_images_model(m, engine, text, a, t1);
    lemma_find_engine(m.engines, engine);
    lemma_find_query(m1.queries, text, eid);
    assert(qid == m.queries.len() + 1);
    assert(m2.queries[qid - 1].text == text && m2.queries[qid - 1].engine_id == eid);
    assert(m2.queries[qid - 1].image_links =~= Seq::<LinkModel>::empty());
    // phase A appends a's rows and one link per row
    assert forall|k: int| 0 <= k < a.len() implies find_image(
        m2.images,
        (#[trigger] a[k]).url,
    ) is None by {
        assert((a + b)[k] == a[k]);
    }
    assert forall|k1: int, k2: int| 0 <= k1 < k2 < a.len() implies (#[trigger] a[k1]).url != (
    #[trigger] a[k2]).url by {
        assert((a + b)[k1] == a[k1]);
        assert((a + b)[k2] == a[k2]);
    }
    assert(wf_links(m2.queries[qid - 1].image_links, m2.images.len() as int));
    lemma_upsert_image_entries_fresh(m2, qid, a);
    assert(ma == upsert_image_entries(m2, qid, a));
    let links_a = Seq::new(
        a.len(),
        |k: int| LinkModel { target_id: m.images.len() + 1 + k, position: k },
    );
    assert(ma.queries[qid - 1].image_links =~= links_a);
    assert(ma.images == m.images + a);
    // phase B resolves the same engine and query
    assert(find_engine(ma.engines, engine) == Some(eid - 1)) by {
        if find_engine(m.engines, engine) is None {
            assert(m1.engines.drop_last() =~= m.engines);
            assert(m1.engines.last() == engine);
        }
        assert(ma.engines == m1.engines);
    }
    assert(register_engine(ma, engine) =~= ma);
    assert(engine_id_in(ma, engine) == eid);
    assert(find_query(ma.queries, text, eid) == Some(qid - 1)) by {
        lemma_find_query_same_keys(ma.queries, m2.queries, text, eid);
        lemma_find_query(m2.queries, text, eid);
        match find_query(m2.queries, text, eid) {
            Some(i) => {
                if i < qid - 1 {
                    assert(m2.queries[i] == m1.queries[i]);
                    assert(false);
                }
            },
            None => {
                assert(false);
            },
        }
    }
    assert(ensure_query(ma, text, eid, t2) =~= ma);
    assert(upsert_qid(ma, engine, text) == qid);
    let mb = upsert_images_model(ma, engine, text, b, t2);
    assert(mb == upsert_image_entries(ma, qid, b));
    // phase B appends b's rows after a's
    assert forall|k: int| 0 <= k < b.len() implies find_image(
        ma.images,
        (#[trigger] b[k]).url,
    ) is None by {
        assert((a + b)[a.len() + k] == b[k]);
        lemma_find_image(ma.images, b[k].url);
        match find_image(ma.images, b[k].url) {
            Some(i) => {
                if i < m.images.len() {
                    lemma_find_image(m.images, b[k].url);
                    assert(m.images[i] == ma.images[i]);
                    assert(find_image(m.images, b[k].url) is None);
                    assert(false);
                } else {
                    assert(ma.images[i] == a[i - m.images.len()]);
                    assert((a + b)[i - m.images.len()] == a[i - m.images.len()]);
                    assert(false);
                }
            },
            None => {},
        }
    }
    assert forall|k1: int, k2: int| 0 <= k1 < k2 < b.len() implies (#[trigger] b[k1]).url != (
    #[trigger] b[k2]).url by {
        assert((a + b)[a.len() + k1] == b[k1]);
        assert((a + b)[a.len() + k2] == b[k2]);
    }
    assert(wf_links(links_a, ma.images.len() as int));
    lemma_upsert_image_entries_fresh(ma, qid, b);
    let links_b = Seq::new(
        b.len(),
        |k: int| LinkModel { target_id: ma.images.len() + 1 + k, position: a.len() + k },
    );
    assert(mb.images == ma.images + b);
    assert(mb.queries[qid - 1].image_links == links_a + links_b);
    // the cached view is exactly a followed by b
    assert(cached_images_of(mb, qid) =~= a + b) by {
        assert(1 <= qid <= mb.queries.len());
        let lt = links_a + links_b;
        assert forall|k: int| 0 <= k < lt.len() implies links_to_images(lt, mb.images)[k] == (a
            + b)[k] by {
            if k < a.len() {
                assert(lt[k] == links_a[k]);
                assert(mb.images =~= m.images + a + b);
                assert(mb.images[m.images.len() + k] == a[k]);
            } else {
                assert(lt[k] == links_b[k - a.len()]);
                assert(mb.images =~= m.images + a + b);
                assert(mb.images[ma.images.len() + (k - a.len())] == b[k - a.len()]);
            }
        }
    }
}

/// Global dedup for images: upserting a page with one fresh URL under
/// two distinct queries creates exactly one image row, and each query
/// gets its own link to that one row.
pub proof fn lemma_upsert_images_global_dedup(
    m: StoreModel,
    engine1: Seq<char>,
    text1: Seq<char>,
    t1: int,
    engine2: Seq<char>,
    text2: Seq<char>,
    t2: int,
    row: ImageModel,
)
    requires
        wf_model(m),
        text1 != text2,
        find_image(m.images, row.url) is None,
    ensures
        ({
            let ma = upsert_images_model(m, engine1, text1, seq![row], t1);
            let mb = upsert_images_model(ma, engine2, text2, seq![row], t2);
            let q1 = upsert_qid(m, engine1, text1);
            let q2 = upsert_qid(ma, engine2, text2);
            let id = m.images.len() as int + 1;
            &&& mb.images == m.images.push(row)
            &&& q1 != q2
            &&& has_link(mb.queries[q1 - 1].image_links, id)
            &&& has_link(mb.queries[q2 - 1].image_links, id)
        }),
{
    let id = m.images.len() as int + 1;
    // phase A: the row is new, so it is appended and linked to query 1
    let ma1 = register_engine(m, engine1);
    let eid1 = engine_id_in(m, engine1);
    let ma2 = ensure_query(ma1, text1, eid1, t1);
    let q1 = upsert_qid(m, engine1, text1);
    let ma = upsert_images_model(m, engine1, text1, seq![row], t1);
    lemma_find_query(ma1.queries, text1, eid1);
    assert(1 <= q1 <= ma2.queries.len());
    assert(ma2.queries[q1 - 1].text == text1);
    assert(ma == upsert_image_entries(ma2, q1, seq![row]));
    let sa = upsert_image_step(ma2, q1, row);
    assert(seq![row].drop_first() =~= Seq::<ImageModel>::empty());
    assert(seq![row][0] == row);
    assert(upsert_image_entries(sa, q1, seq![row].drop_first()) == sa);
    assert(ma == sa);
    assert(image_id_for(ma2.images, row.url) == id);
    assert(ma.images == m.images.push(row));
    lemma_upsert_image_step_props(ma2, q1, row);
    assert(has_link(ma.queries[q1 - 1].image_links, id));
    assert(ma.queries[q1 - 1].text == text1);
    assert(forall|j: int|
        0 <= j < ma2.queries.len() && j != q1 - 1 ==> ma.queries[j] == ma2.queries[j]);
    // phase B: the row is found, so only a link to query 2 is added
    let mb1 = register_engine(ma, engine2);
    let eid2 = engine_id_in(ma, engine2);
    let mb2 = ensure_query(mb1, text2, eid2, t2);
    let q2 = upsert_qid(ma, engine2, text2);
    let mb = upsert_images_model(ma, engine2, text2, seq![row], t2);
    lemma_find_query(mb1.queries, text2, eid2);
    assert(1 <= q2 <= mb2.queries.len());
    assert(mb2.queries[q2 - 1].text == text2);
    assert(mb == upsert_image_entries(mb2, q2, seq![row]));
    let sb = upsert_image_step(mb2, q2, row);
    assert(upsert_image_entries(sb, q2, seq![row].drop_first()) == sb);
    assert(mb == sb);
    assert(find_image(mb2.images, row.url) == Some(id - 1)) by {
        assert(mb2.images == m.images.push(row));
        assert(m.images.push(row).drop_last() =~= m.images);
        assert(m.images.push(row).last() == row);
    }
    assert(image_id_for(mb2.images, row.url) == id);
    assert(mb.images == mb2.images);
    assert(mb.images == m.images.push(row));
    lemma_upsert_image_step_props(mb2, q2, row);
    assert(has_link(mb.queries[q2 - 1].image_links, id));
    // the two queries are distinct rows, and query 1 keeps its link
    assert(mb2.queries[q2 - 1].text == text2);
    assert(mb.queries[q1 - 1].text == text1) by {
        if q1 - 1 != q2 - 1 {
            assert(mb.queries[q1 - 1] == mb2.queries[q1 - 1]);
            assert(mb2.queries[q1 - 1].text == ma.queries[q1 - 1].text);
        }
    }
    assert(q1 != q2);
    assert(has_link(mb.queries[q1 - 1].image_links, id)) by {
        assert(mb.queries[q1 - 1] == mb2.queries[q1 - 1]);
        assert(mb2.queries[q1 - 1].image_links == ma.queries[q1 - 1].image_links);
    }
}


/// The image twin of `lemma_upsert_results_covers`.
pub proof fn lemma_upsert_images_covers(
    m: StoreModel,
    engine: Seq<char>,
    text: Seq<char>,
    entries: Seq<ImageModel>,
    t: int,
)
    ensures
        ({
            let mo = upsert_images_model(m, engine, text, entries, t);
            let qid = upsert_qid(m, engine, text);
            &&& forall|k: int|
                0 <= k < entries.len() ==> find_image(
                    mo.images,
                    (#[trigger] entries[k]).url,
                ) is Some
            &&& forall|k: int|
                0 <= k < entries.len() ==> has_link(
                    mo.queries[qid - 1].image_links,
                    image_id_for(mo.images, (#[trigger] entries[k]).url),
                )
            &&& m.images.len() <= mo.images.len()
            &&& mo.images.take(m.images.len() as int) == m.images
            &&& forall|j: int|
                0 <= j < m.queries.len() && j != qid - 1 ==> mo.queries[j] == m.queries[j]
        }),
{
    let m1 = register_engine(m, engine);
    let eid = engine_id_in(m, engine);
    let m2 = ensure_query(m1, text, eid, t);
    let qid = upsert_qid(m, engine, text);
    lemma_find_query(m1.queries, text, eid);
    assert(1 <= qid <= m2.queries.len());
    lemma_upsert_image_entries_props(m2, qid, entries);
    let mo = upsert_images_model(m, engine, text, entries, t);
    assert(mo == upsert_image_entries(m2, qid, entries));
    assert(m2.images == m.images);
    assert forall|j: int| 0 <= j < m.queries.len() && j != qid - 1 implies mo.queries[j]
        == m.queries[j] by {
        assert(m2.queries[j] == m.queries[j]);
    }
}

/// Clone a list of result rows, field for field.
pub fn clone_rows(v: &Vec<ResultRow>) -> (r: Vec<ResultRow>)
    ensures
        rows_view(r@) == rows_view(v@),
{
    let mut r: Vec<ResultRow> = Vec::new();
    let n = v.len();
    let mut t: usize = 0;
    while t < n
        invariant
            n == v@.len(),
            0 <= t <= n,
            r@.len() == t,
            forall|k: int| 0 <= k < t ==> (#[trigger] r@[k])@ == v@[k]@,
        decreases n - t,
    {
        let nv = ResultRow {
            url: v[t].url.clone(),
            title: v[t].title.clone(),
            description: v[t].description.clone(),
        };
        let ghost gnv = nv;
        let ghost prev = r@;
        r.push(nv);
        proof {
            assert(r@ == prev.push(gnv));
            assert forall|k: int| 0 <= k < t + 1 implies (#[trigger] r@[k])@ == v@[k]@ by {
                if k < t {
                    assert(prev.push(gnv)[k] == prev[k]);
                } else {
                    assert(prev.push(gnv)[k] == gnv);
                }
            }
        }
        t += 1;
    }
    proof {
        assert forall|k: int| 0 <= k < n implies rows_view(r@)[k] == rows_view(v@)[k] by {
            assert(r@[k]@ == v@[k]@);
        }
        assert(rows_view(r@) =~= rows_view(v@));
    }
    r
}

/// Clone a list of image rows, field for field.
pub fn clone_image_rows(v: &Vec<ImagesRow>) -> (r: Vec<ImagesRow>)
    ensures
        images_view(r@) == images_view(v@),
{
    let mut r: Vec<ImagesRow> = Vec::new();
    let n = v.len();
    let mut t: usize = 0;
    while t < n
        invariant
            n == v@.len(),
            0 <= t <= n,
            r@.len() == t,
            forall|k: int| 0 <= k < t ==> (#[trigger] r@[k])@ == v@[k]@,
        decreases n - t,
    {
        let nv = ImagesRow { url: v[t].url.clone(), title: v[t].title.clone() };
        let ghost gnv = nv;
        let ghost prev = r@;
        r.push(nv);
        proof {
            assert(r@ == prev.push(gnv));
            assert forall|k: int| 0 <= k < t + 1 implies (#[trigger] r@[k])@ == v@[k]@ by {
                if k < t {
                    assert(prev.push(gnv)[k] == prev[k]);
                } else {
                    assert(prev.push(gnv)[k] == gnv);
                }
            }
        }
        t += 1;
    }
    proof {
        assert forall|k: int| 0 <= k < n implies images_view(r@)[k] == images_view(v@)[k] by {
            assert(r@[k]@ == v@[k]@);
        }
        assert(images_view(r@) =~= images_view(v@));
    }
    r
}

} // verus!
