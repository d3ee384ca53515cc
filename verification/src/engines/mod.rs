//! The engine adapters: the capability traits an engine implements, the
//! engine error taxonomy, and the verified result-page parsing built on a
//! trusted HTML scraping layer.
use vstd::prelude::*;

use scraper::{Html, Selector};

use crate::cache::{images_view, rows_view, ImageModel, ImagesRow, ResultRow, RowModel};

pub mod brave;
pub mod duckduckgo;

pub use brave::Brave;
pub use duckduckgo::DuckDuckGo;

verus! {

/// Why an engine failed to deliver a page: a transport failure (carrying
/// the transport error's message), a parse failure, or the engine's own
/// deadline elapsing.
#[derive(Debug)]
pub enum EngineError {
    ReqwestError(String),
    ParseError(String),
    Timeout,
}

/// An engine's stable identity, used as the store's engine key. Nothing
/// is promised of the name: the reconciler reads it once per call and
/// keys the cache by whatever came back.
pub trait EngineInfo {
    /// The engine's name.
    fn name(&self) -> &'static str;
}

/// An engine that can fetch its first page of text results for a query.
/// Nothing is promised of the page: it comes from the network.
pub trait SearchEngine: EngineInfo {
    /// Fetch the engine's first page of results for `query`.
    fn search_results(&self, query: &str) -> Result<Vec<ResultRow>, EngineError>;
}

/// An engine that can fetch its first page of image results for a query.
pub trait ImageEngine: EngineInfo {
    /// Fetch the engine's first page of image results for `query`.
    fn search_images(&self, query: &str) -> Result<Vec<ImagesRow>, EngineError>;
}

/// What scraping a page for text results yields: a function of the page
/// text and the four selectors alone.
pub uninterp spec fn scraped_results(
    html: Seq<char>,
    results_sel: Seq<char>,
    title_sel: Seq<char>,
    href_sel: Seq<char>,
    description_sel: Seq<char>,
) -> Seq<RowModel>;

/// What scraping a page for image results yields: a function of the page
/// text and the three selectors alone.
pub uninterp spec fn scraped_images(
    html: Seq<char>,
    images_sel: Seq<char>,
    title_sel: Seq<char>,
    img_sel: Seq<char>,
) -> Seq<ImageModel>;

/// Relies on scraper's Html and Selector: parse the document, select the
/// result elements in document order, and read each one's href, title
/// text and description text, empty where missing. The outcome depends
/// only on the page text and the selectors; an invalid selector selects
/// nothing.
#[verifier::external_body]
pub fn parse_search(
    html: &str,
    results_selector: &'static str,
    title_selector: &'static str,
    href_selector: &'static str,
    description_selector: &'static str,
) -> (r: Vec<ResultRow>)
    ensures
        rows_view(r@) == scraped_results(
            html@,
            results_selector@,
            title_selector@,
            href_selector@,
            description_selector@,
        ),
{
    let doc = Html::parse_document(html);
    let sels = [results_selector, title_selector, href_selector, description_selector].map(
        Selector::parse,
    );
    let [Ok(rs), Ok(ts), Ok(hs), Ok(ds)] = sels else { return Vec::new() };
    doc.select(&rs).map(
        |e| ResultRow {
            url: e.select(&hs).next().and_then(|u| u.value().attr("href")).unwrap_or_default().to_string(),
            title: e.select(&ts).next().map(|t| t.text().collect()).unwrap_or_default(),
            description: e.select(&ds).next().map(|d| d.text().collect()).unwrap_or_default(),
        },
    ).collect()
}

/// Relies on scraper's Html and Selector: select the image elements in
/// document order and read each one's src and title text, empty where
/// missing. The outcome depends only on the page text and the selectors.
#[verifier::external_body]
pub fn parse_images(
    html: &str,
    images_selector: &'static str,
    title_selector: &'static str,
    img_selector: &'static str,
) -> (r: Vec<ImagesRow>)
    ensures
        images_view(r@) == scraped_images(
            html@,
            images_selector@,
            title_selector@,
            img_selector@,
        ),
{
    let doc = Html::parse_document(html);
    let sels = [images_selector, title_selector, img_selector].map(Selector::parse);
    let [Ok(isel), Ok(ts), Ok(img)] = sels else { return Vec::new() };
    doc.select(&isel).map(
        |e| ImagesRow {
            url: e.select(&img).next().and_then(|u| u.value().attr("src")).unwrap_or_default().to_string(),
            title: e.select(&ts).next().map(|t| t.text().collect()).unwrap_or_default(),
        },
    ).collect()
}

} // verus!
