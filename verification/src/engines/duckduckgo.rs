//! The DuckDuckGo engine: its identity, its result-page parsing, and the
//! decoding of its redirect links, with sponsored entries dropped.
use vstd::prelude::*;

use crate::cache::{rows_view, ResultRow, RowModel};
use crate::engines::{parse_search, scraped_results, EngineError, EngineInfo};
use crate::util::contains_seq;

verus! {

/// The DuckDuckGo search engine.
pub struct DuckDuckGo;

impl EngineInfo for DuckDuckGo {
    fn name(&self) -> &'static str {
        "DuckDuckGo"
    }
}

/// The query pairs of the href resolved against the DuckDuckGo origin:
/// a function of the href alone, `None` when it does not resolve.
pub uninterp spec fn ddg_join_pairs(href: Seq<char>) -> Option<Seq<(Seq<char>, Seq<char>)>>;

/// The percent-decoding of `s`, when it decodes to valid text:
/// a function of the input alone.
pub uninterp spec fn percent_decoded(s: Seq<char>) -> Option<Seq<char>>;

/// Views of a sequence of string pairs.
pub open spec fn pairs_view(s: Seq<(String, String)>) -> Seq<(Seq<char>, Seq<char>)> {
    s.map_values(|p: (String, String)| (p.0@, p.1@))
}

/// Relies on url's Url::parse, Url::join and Url::query_pairs: resolve the
/// href against the DuckDuckGo origin and decode its query pairs in order;
/// `None` when the href does not resolve.
#[verifier::external_body]
fn ddg_query_pairs(href: &str) -> (r: Option<Vec<(String, String)>>)
    ensures
        match r {
            Some(p) => ddg_join_pairs(href@) == Some(pairs_view(p@)),
            None => ddg_join_pairs(href@) is None,
        },
{
    let base = url::Url::parse("https://duckduckgo.com").ok()?;
    let joined = base.join(href).ok()?;
    Some(joined.query_pairs().into_owned().collect())
}

/// Relies on percent_encoding's percent_decode: decode the percent
/// escapes of `s`, keeping the result only when it is valid text.
#[verifier::external_body]
fn percent_decode_utf8(s: &str) -> (r: Option<String>)
    ensures
        match r {
            Some(d) => percent_decoded(s@) == Some(d@),
            None => percent_decoded(s@) is None,
        },
{
    percent_encoding::percent_decode(s.as_bytes()).decode_utf8().ok().map(|c| c.into_owned())
}

/// A DuckDuckGo-internal link that carries an advertisement.
pub open spec fn is_sponsored_spec(url: Seq<char>) -> bool {
    ||| contains_seq(url, "duckduckgo.com/l/?"@)
    ||| contains_seq(url, "duckduckgo.com/y.js"@)
    ||| contains_seq(url, "duckduckgo.com/?uddg="@)
}

/// Whether the href is one of DuckDuckGo's sponsored-link shapes.
pub fn is_sponsored(href: &str) -> (r: bool)
    ensures
        r == is_sponsored_spec(href@),
{
    ||| crate::util::str_contains(href, "duckduckgo.com/l/?")
    ||| crate::util::str_contains(href, "duckduckgo.com/y.js")
    ||| crate::util::str_contains(href, "duckduckgo.com/?uddg=")
}

/// The value of the first `uddg` query pair, if any.
pub open spec fn first_uddg(pairs: Seq<(Seq<char>, Seq<char>)>) -> Option<Seq<char>>
    decreases pairs.len(),
{
    if pairs.len() == 0 {
        None
    } else {
        match first_uddg(pairs.drop_last()) {
            Some(v) => Some(v),
            None => if pairs.last().0 == "uddg"@ {
                Some(pairs.last().1)
            } else {
                None
            },
        }
    }
}

/// What decoding a DuckDuckGo redirect href yields: the percent-decoded
/// value of its first `uddg` query pair, or the raw href when there is no
/// such pair, the href does not resolve, or the value does not decode.
pub open spec fn ddg_extract(href: Seq<char>) -> Seq<char> {
    match ddg_join_pairs(href) {
        None => href,
        Some(pairs) => match first_uddg(pairs) {
            None => href,
            Some(v) => match percent_decoded(v) {
                Some(d) => d,
                None => href,
            },
        },
    }
}

/// Decode a DuckDuckGo redirect href to the target URL it points at.
fn extract_ddg_url(href: &str) -> (r: String)
    ensures
        r@ == ddg_extract(href@),
{
    match ddg_query_pairs(href) {
        None => href.to_owned(),
        Some(pairs) => {
            let n = pairs.len();
            let ghost pv = pairs_view(pairs@);
            let mut found: Option<usize> = None;
            let mut i: usize = 0;
            while i < n
                invariant
                    n == pairs@.len(),
                    pv == pairs_view(pairs@),
                    0 <= i <= n,
                    match found {
                        Some(k) => k < i && first_uddg(pv.take(i as int)) == Some(
                            pv[k as int].1,
                        ),
                        None => first_uddg(pv.take(i as int)) is None,
                    },
                decreases n - i,
            {
                proof {
                    assert(pv.take(i + 1).drop_last() =~= pv.take(i as int));
                    assert(pv.take(i + 1).last() == pv[i as int]);
                }
                if found.is_none() {
                    if crate::util::str_eq(pairs[i].0.as_str(), "uddg") {
                        proof {
                            assert(pv[i as int].0 == "uddg"@);
                        }
                        found = Some(i);
                    }
                }
                i += 1;
            }
            proof {
                assert(pv.take(n as int) =~= pv);
            }
            match found {
                Some(k) => match percent_decode_utf8(pairs[k].1.as_str()) {
                    Some(d) => d,
                    None => href.to_owned(),
                },
                None => href.to_owned(),
            }
        },
    }
}

/// What cleaning a scraped DuckDuckGo page yields: sponsored entries are
/// dropped and each remaining entry's redirect href is decoded.
pub open spec fn ddg_clean(rows: Seq<RowModel>) -> Seq<RowModel>
    decreases rows.len(),
{
    if rows.len() == 0 {
        Seq::empty()
    } else {
        let front = ddg_clean(rows.drop_last());
        let last = rows.last();
        if is_sponsored_spec(last.url) {
            front
        } else {
            front.push(RowModel { url: ddg_extract(last.url), ..last })
        }
    }
}

/// Parse a DuckDuckGo result page: scrape the result entries, drop the
/// sponsored ones, and decode each remaining redirect link.
pub fn parse_response(html: &str) -> (r: Result<Vec<ResultRow>, EngineError>)
    ensures
        r matches Ok(v) && rows_view(v@) == ddg_clean(
            scraped_results(
                html@,
                ".serp__results .result"@,
                ".result__a"@,
                ".result__a"@,
                ".result__snippet"@,
            ),
        ),
{
    let rows = parse_search(html, ".serp__results .result", ".result__a", ".result__a", ".result__snippet");
    let ghost base = rows_view(rows@);
    let n = rows.len();
    let mut out: Vec<ResultRow> = Vec::new();
    proof {
        assert(base.take(0) =~= Seq::<RowModel>::empty());
        assert(rows_view(out@) =~= Seq::<RowModel>::empty());
        assert(ddg_clean(base.take(0)) == Seq::<RowModel>::empty());
    }
    let mut i: usize = 0;
    while i < n
        invariant
            n == rows@.len(),
            base == rows_view(rows@),
            0 <= i <= n,
            rows_view(out@) == ddg_clean(base.take(i as int)),
        decreases n - i,
    {
        proof {
            assert(base.take(i + 1).drop_last() =~= base.take(i as int));
            assert(base.take(i + 1).last() == base[i as int]);
        }
        if !is_sponsored(rows[i].url.as_str()) {
            let url = extract_ddg_url(rows[i].url.as_str());
            let newrow = ResultRow {
                url,
                title: rows[i].title.clone(),
                description: rows[i].description.clone(),
            };
            let ghost gn = newrow;
            let ghost prev = out@;
            out.push(newrow);
            proof {
                assert(out@ == prev.push(gn));
                assert(gn@ =~= RowModel { url: ddg_extract(base[i as int].url), ..base[i as int] });
                assert forall|w: int| 0 <= w < prev.len() + 1 implies rows_view(out@)[w]
                    == ddg_clean(base.take(i + 1))[w] by {
                    if w < prev.len() {
                        assert(prev.push(gn)[w] == prev[w]);
                        assert(rows_view(prev)[w] == ddg_clean(base.take(i as int))[w]);
                    } else {
                        assert(prev.push(gn)[w] == gn);
                    }
                }
                assert(rows_view(prev).len() == prev.len());
                assert(rows_view(out@) =~= ddg_clean(base.take(i + 1)));
            }
        } else {
            proof {
                assert(ddg_clean(base.take(i + 1)) == ddg_clean(base.take(i as int)));
            }
        }
        i += 1;
    }
    proof {
        assert(base.take(n as int) =~= base);
    }
    Ok(out)
}

} // verus!
