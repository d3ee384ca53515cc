//! The Brave engine: its identity and its result-page parsing.
use vstd::prelude::*;

use crate::cache::{rows_view, ResultRow};
use crate::engines::{parse_search, scraped_results, EngineError, EngineInfo};

verus! {

/// The Brave search engine.
pub struct Brave;

impl EngineInfo for Brave {
    fn name(&self) -> &'static str {
        "Brave"
    }
}

/// Parse a Brave result page: the snippets under the result list, each
/// with its link, title and description.
pub fn parse_response(html: &str) -> (r: Result<Vec<ResultRow>, EngineError>)
    ensures
        r matches Ok(v) && rows_view(v@) == scraped_results(
            html@,
            "#results > .snippet[data-pos]:not(.standalone)"@,
            ".title"@,
            "a"@,
            ".generic-snippet, .video-snippet > .snippet-description"@,
        ),
{
    Ok(
        parse_search(
            html,
            "#results > .snippet[data-pos]:not(.standalone)",
            ".title",
            "a",
            ".generic-snippet, .video-snippet > .snippet-description",
        ),
    )
}

} // verus!
