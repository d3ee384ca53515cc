//! The merger: deduplicate a flattened cross-engine result list by exact
//! URL, union engine provenance without duplicates, backfill empty titles
//! and descriptions from later sightings, and order the output by URL.
use vstd::prelude::*;

use crate::util::{lemma_lex_lt_transitive, lemma_lex_lt_trichotomy, lex_lt};
use crate::{names_view, sr_view, ir_view, ImageResult, ImageResultModel, SearchModel, SearchResult};

verus! {

/// Index of the first merged row bearing this URL, if any.
pub open spec fn find_merged(acc: Seq<SearchModel>, url: Seq<char>) -> Option<int>
    decreases acc.len(),
{
    if acc.len() == 0 {
        None
    } else {
        match find_merged(acc.drop_last(), url) {
            Some(i) => Some(i),
            None => if acc.last().url == url {
                Some(acc.len() - 1)
            } else {
                None
            },
        }
    }
}

/// The characterization of `find_merged` as a first match.
pub proof fn lemma_find_merged(acc: Seq<SearchModel>, url: Seq<char>)
    ensures
        match find_merged(acc, url) {
            Some(i) => 0 <= i < acc.len() && acc[i].url == url && (forall|j: int|
                0 <= j < i ==> (#[trigger] acc[j]).url != url),
            None => forall|j: int| 0 <= j < acc.len() ==> (#[trigger] acc[j]).url != url,
        },
    decreases acc.len(),
{
    if acc.len() > 0 {
        lemma_find_merged(acc.drop_last(), url);
        assert(forall|j: int| 0 <= j < acc.len() - 1 ==> acc[j] == acc.drop_last()[j]);
    }
}

/// Index of the first merged row whose URL orders after `url`, if any.
pub open spec fn first_after(acc: Seq<SearchModel>, url: Seq<char>) -> Option<int>
    decreases acc.len(),
{
    if acc.len() == 0 {
        None
    } else {
        match first_after(acc.drop_last(), url) {
            Some(i) => Some(i),
            None => if lex_lt(url, acc.last().url) {
                Some(acc.len() - 1)
            } else {
                None
            },
        }
    }
}

/// The characterization of `first_after` as a first match.
pub proof fn lemma_first_after(acc: Seq<SearchModel>, url: Seq<char>)
    ensures
        match first_after(acc, url) {
            Some(i) => 0 <= i < acc.len() && lex_lt(url, acc[i].url) && (forall|j: int|
                0 <= j < i ==> !lex_lt(url, (#[trigger] acc[j]).url)),
            None => forall|j: int| 0 <= j < acc.len() ==> !lex_lt(url, (#[trigger] acc[j]).url),
        },
    decreases acc.len(),
{
    if acc.len() > 0 {
        lemma_first_after(acc.drop_last(), url);
        assert(forall|j: int| 0 <= j < acc.len() - 1 ==> acc[j] == acc.drop_last()[j]);
    }
}

/// Where a row with this URL is inserted in the URL-ordered list `acc`.
pub open spec fn merge_pos(acc: Seq<SearchModel>, url: Seq<char>) -> int {
    match first_after(acc, url) {
        Some(i) => i,
        None => acc.len() as int,
    }
}

/// The in-order union of two engine-name lists, keeping the left list and
/// appending each name of the right list not yet present.
pub open spec fn names_union(a: Seq<Seq<char>>, b: Seq<Seq<char>>) -> Seq<Seq<char>>
    decreases b.len(),
{
    if b.len() == 0 {
        a
    } else {
        names_union(
            if a.contains(b[0]) {
                a
            } else {
                a.push(b[0])
            },
            b.drop_first(),
        )
    }
}

/// Adding one more name on the right appends it unless it is present.
pub proof fn lemma_names_union_snoc(a: Seq<Seq<char>>, b: Seq<Seq<char>>, x: Seq<char>)
    ensures
        names_union(a, b.push(x)) == (if names_union(a, b).contains(x) {
            names_union(a, b)
        } else {
            names_union(a, b).push(x)
        }),
    decreases b.len(),
{
    if b.len() == 0 {
        let a1 = if a.contains(x) {
            a
        } else {
            a.push(x)
        };
        assert(b.push(x)[0] == x);
        assert(b.push(x).drop_first() =~= Seq::<Seq<char>>::empty());
        assert(names_union(a1, b.push(x).drop_first()) == a1);
        assert(names_union(a, b) == a);
    } else {
        assert(b.push(x)[0] == b[0]);
        assert(b.push(x).drop_first() =~= b.drop_first().push(x));
        let a1 = if a.contains(b[0]) {
            a
        } else {
            a.push(b[0])
        };
        assert(names_union(a, b.push(x)) == names_union(a1, b.drop_first().push(x)));
        assert(names_union(a, b) == names_union(a1, b.drop_first()));
        lemma_names_union_snoc(a1, b.drop_first(), x);
    }
}

/// Merge a repeat sighting into an existing row: union the engines and
/// backfill the title and description only where the stored one is empty.
pub open spec fn absorb(e: SearchModel, row: SearchModel) -> SearchModel {
    SearchModel {
        title: if e.title.len() == 0 {
            row.title
        } else {
            e.title
        },
        description: if e.description.len() == 0 {
            row.description
        } else {
            e.description
        },
        engines: names_union(e.engines, row.engines),
        ..e
    }
}

/// Merge one arriving row into the URL-ordered accumulator: a first
/// sighting is inserted in URL order, a repeat is absorbed in place.
pub open spec fn merge_one(acc: Seq<SearchModel>, row: SearchModel) -> Seq<SearchModel> {
    match find_merged(acc, row.url) {
        Some(i) => acc.update(i, absorb(acc[i], row)),
        None => acc.insert(merge_pos(acc, row.url), row),
    }
}

/// Merge the rows into the accumulator, in arrival order.
pub open spec fn merge_seq(acc: Seq<SearchModel>, rows: Seq<SearchModel>) -> Seq<SearchModel>
    decreases rows.len(),
{
    if rows.len() == 0 {
        acc
    } else {
        merge_seq(merge_one(acc, rows[0]), rows.drop_first())
    }
}

/// Merging one more row on the right is one more `merge_one`.
pub proof fn lemma_merge_seq_snoc(acc: Seq<SearchModel>, rows: Seq<SearchModel>, x: SearchModel)
    ensures
        merge_seq(acc, rows.push(x)) == merge_one(merge_seq(acc, rows), x),
    decreases rows.len(),
{
    if rows.len() == 0 {
        assert(rows.push(x)[0] == x);
        assert(rows.push(x).drop_first() =~= Seq::<SearchModel>::empty());
        assert(merge_seq(merge_one(acc, x), rows.push(x).drop_first()) == merge_one(acc, x));
    } else {
        assert(rows.push(x)[0] == rows[0]);
        assert(rows.push(x).drop_first() =~= rows.drop_first().push(x));
        assert(merge_seq(acc, rows.push(x)) == merge_seq(
            merge_one(acc, rows[0]),
            rows.drop_first().push(x),
        ));
        lemma_merge_seq_snoc(merge_one(acc, rows[0]), rows.drop_first(), x);
    }
}

/// What the merger returns for a flattened cross-engine list.
pub open spec fn merged(rows: Seq<SearchModel>) -> Seq<SearchModel> {
    merge_seq(Seq::empty(), rows)
}

/// Strict ascending URL order; it implies the URLs are pairwise distinct.
pub open spec fn sorted_by_url(s: Seq<SearchModel>) -> bool {
    forall|i: int, j: int|
        0 <= i < j < s.len() ==> lex_lt((#[trigger] s[i]).url, (#[trigger] s[j]).url)
}

/// Merging one row preserves strict URL order.
proof fn lemma_merge_one_sorted(acc: Seq<SearchModel>, row: SearchModel)
    requires
        sorted_by_url(acc),
    ensures
        sorted_by_url(merge_one(acc, row)),
    decreases acc.len(),
{
    lemma_find_merged(acc, row.url);
    match find_merged(acc, row.url) {
        Some(i) => {
            let out = acc.update(i, absorb(acc[i], row));
            assert forall|p: int, q: int| 0 <= p < q < out.len() implies lex_lt(
                (#[trigger] out[p]).url,
                (#[trigger] out[q]).url,
            ) by {
                assert(out[p].url == acc[p].url);
                assert(out[q].url == acc[q].url);
            }
        },
        None => {
            lemma_first_after(acc, row.url);
            let ip = merge_pos(acc, row.url);
            let out = acc.insert(ip, row);
            assert forall|p: int, q: int| 0 <= p < q < out.len() implies lex_lt(
                (#[trigger] out[p]).url,
                (#[trigger] out[q]).url,
            ) by {
                if p == ip {
                    assert(out[p] == row);
                    assert(out[q] == acc[q - 1]);
                    if q - 1 == ip {
                        assert(lex_lt(row.url, acc[ip].url));
                    } else {
                        assert(lex_lt(row.url, acc[ip].url));
                        assert(lex_lt(acc[ip].url, acc[q - 1].url));
                        lemma_lex_lt_transitive(row.url, acc[ip].url, acc[q - 1].url);
                    }
                } else if q == ip {
                    assert(out[p] == acc[p]);
                    assert(out[q] == row);
                    assert(!lex_lt(row.url, acc[p].url));
                    assert(acc[p].url != row.url);
                    lemma_lex_lt_trichotomy(acc[p].url, row.url);
                } else {
                    let lp = if p < ip {
                        p
                    } else {
                        p - 1
                    };
                    let lq = if q < ip {
                        q
                    } else {
                        q - 1
                    };
                    assert(out[p] == acc[lp]);
                    assert(out[q] == acc[lq]);
                }
            }
        },
    }
}

/// The merged output is in strictly ascending URL order, so each URL
/// appears at most once.
pub proof fn lemma_merged_sorted(rows: Seq<SearchModel>)
    ensures
        sorted_by_url(merged(rows)),
        forall|i: int, j: int|
            0 <= i < j < merged(rows).len() ==> (#[trigger] merged(rows)[i]).url != (
            #[trigger] merged(rows)[j]).url,
{
    lemma_merge_seq_sorted(Seq::empty(), rows);
    assert forall|i: int, j: int| 0 <= i < j < merged(rows).len() implies (
    #[trigger] merged(rows)[i]).url != (#[trigger] merged(rows)[j]).url by {
        assert(lex_lt(merged(rows)[i].url, merged(rows)[j].url));
        lemma_lex_lt_trichotomy(merged(rows)[i].url, merged(rows)[j].url);
    }
}

/// Merging any rows into a URL-ordered accumulator keeps it ordered.
proof fn lemma_merge_seq_sorted(acc: Seq<SearchModel>, rows: Seq<SearchModel>)
    requires
        sorted_by_url(acc),
    ensures
        sorted_by_url(merge_seq(acc, rows)),
    decreases rows.len(),
{
    if rows.len() > 0 {
        lemma_merge_one_sorted(acc, rows[0]);
        lemma_merge_seq_sorted(merge_one(acc, rows[0]), rows.drop_first());
    }
}

// ---------------------------------------------------------------------------
// The image twins of the merge model.
// ---------------------------------------------------------------------------

/// Index of the first merged image row bearing this URL, if any.
pub open spec fn find_merged_img(acc: Seq<ImageResultModel>, url: Seq<char>) -> Option<int>
    decreases acc.len(),
{
    if acc.len() == 0 {
        None
    } else {
        match find_merged_img(acc.drop_last(), url) {
            Some(i) => Some(i),
            None => if acc.last().url == url {
                Some(acc.len() - 1)
            } else {
                None
            },
        }
    }
}

/// The characterization of `find_merged_img` as a first match.
pub proof fn lemma_find_merged_img(acc: Seq<ImageResultModel>, url: Seq<char>)
    ensures
        match find_merged_img(acc, url) {
            Some(i) => 0 <= i < acc.len() && acc[i].url == url && (forall|j: int|
                0 <= j < i ==> (#[trigger] acc[j]).url != url),
            None => forall|j: int| 0 <= j < acc.len() ==> (#[trigger] acc[j]).url != url,
        },
    decreases acc.len(),
{
    if acc.len() > 0 {
        lemma_find_merged_img(acc.drop_last(), url);
        assert(forall|j: int| 0 <= j < acc.len() - 1 ==> acc[j] == acc.drop_last()[j]);
    }
}

/// Index of the first merged image row whose URL orders after `url`.
pub open spec fn first_after_img(acc: Seq<ImageResultModel>, url: Seq<char>) -> Option<int>
    decreases acc.len(),
{
    if acc.len() == 0 {
        None
    } else {
        match first_after_img(acc.drop_last(), url) {
            Some(i) => Some(i),
            None => if lex_lt(url, acc.last().url) {
                Some(acc.len() - 1)
            } else {
                None
            },
        }
    }
}

/// The characterization of `first_after_img` as a first match.
pub proof fn lemma_first_after_img(acc: Seq<ImageResultModel>, url: Seq<char>)
    ensures
        match first_after_img(acc, url) {
            Some(i) => 0 <= i < acc.len() && lex_lt(url, acc[i].url) && (forall|j: int|
                0 <= j < i ==> !lex_lt(url, (#[trigger] acc[j]).url)),
            None => forall|j: int| 0 <= j < acc.len() ==> !lex_lt(url, (#[trigger] acc[j]).url),
        },
    decreases acc.len(),
{
    if acc.len() > 0 {
        lemma_first_after_img(acc.drop_last(), url);
        assert(forall|j: int| 0 <= j < acc.len() - 1 ==> acc[j] == acc.drop_last()[j]);
    }
}

/// Where an image row with this URL is inserted.
pub open spec fn merge_pos_img(acc: Seq<ImageResultModel>, url: Seq<char>) -> int {
    match first_after_img(acc, url) {
        Some(i) => i,
        None => acc.len() as int,
    }
}

/// Merge a repeat image sighting into its row.
pub open spec fn absorb_img(e: ImageResultModel, row: ImageResultModel) -> ImageResultModel {
    ImageResultModel {
        title: if e.title.len() == 0 {
            row.title
        } else {
            e.title
        },
        engines: names_union(e.engines, row.engines),
        ..e
    }
}

/// Merge one arriving image row into the URL-ordered accumulator.
pub open spec fn merge_one_img(acc: Seq<ImageResultModel>, row: ImageResultModel) -> Seq<
    ImageResultModel,
> {
    match find_merged_img(acc, row.url) {
        Some(i) => acc.update(i, absorb_img(acc[i], row)),
        None => acc.insert(merge_pos_img(acc, row.url), row),
    }
}

/// Merge the image rows into the accumulator, in arrival order.
pub open spec fn merge_seq_img(
    acc: Seq<ImageResultModel>,
    rows: Seq<ImageResultModel>,
) -> Seq<ImageResultModel>
    decreases rows.len(),
{
    if rows.len() == 0 {
        acc
    } else {
        merge_seq_img(merge_one_img(acc, rows[0]), rows.drop_first())
    }
}

/// Merging one more image row on the right is one more `merge_one_img`.
pub proof fn lemma_merge_seq_img_snoc(
    acc: Seq<ImageResultModel>,
    rows: Seq<ImageResultModel>,
    x: ImageResultModel,
)
    ensures
        merge_seq_img(acc, rows.push(x)) == merge_one_img(merge_seq_img(acc, rows), x),
    decreases rows.len(),
{
    if rows.len() == 0 {
        assert(rows.push(x)[0] == x);
        assert(rows.push(x).drop_first() =~= Seq::<ImageResultModel>::empty());
        assert(merge_seq_img(merge_one_img(acc, x), rows.push(x).drop_first()) == merge_one_img(
            acc,
            x,
        ));
    } else {
        assert(rows.push(x)[0] == rows[0]);
        assert(rows.push(x).drop_first() =~= rows.drop_first().push(x));
        assert(merge_seq_img(acc, rows.push(x)) == merge_seq_img(
            merge_one_img(acc, rows[0]),
            rows.drop_first().push(x),
        ));
        lemma_merge_seq_img_snoc(merge_one_img(acc, rows[0]), rows.drop_first(), x);
    }
}

/// What the image merger returns.
pub open spec fn merged_img(rows: Seq<ImageResultModel>) -> Seq<ImageResultModel> {
    merge_seq_img(Seq::empty(), rows)
}

/// Strict ascending URL order on image rows.
pub open spec fn sorted_by_url_img(s: Seq<ImageResultModel>) -> bool {
    forall|i: int, j: int|
        0 <= i < j < s.len() ==> lex_lt((#[trigger] s[i]).url, (#[trigger] s[j]).url)
}

/// Merging one image row preserves strict URL order.
proof fn lemma_merge_one_img_sorted(acc: Seq<ImageResultModel>, row: ImageResultModel)
    requires
        sorted_by_url_img(acc),
    ensures
        sorted_by_url_img(merge_one_img(acc, row)),
{
    lemma_find_merged_img(acc, row.url);
    match find_merged_img(acc, row.url) {
        Some(i) => {
            let out = acc.update(i, absorb_img(acc[i], row));
            assert forall|p: int, q: int| 0 <= p < q < out.len() implies lex_lt(
                (#[trigger] out[p]).url,
                (#[trigger] out[q]).url,
            ) by {
                assert(out[p].url == acc[p].url);
                assert(out[q].url == acc[q].url);
            }
        },
        None => {
            lemma_first_after_img(acc, row.url);
            let ip = merge_pos_img(acc, row.url);
            let out = acc.insert(ip, row);
            assert forall|p: int, q: int| 0 <= p < q < out.len() implies lex_lt(
                (#[trigger] out[p]).url,
                (#[trigger] out[q]).url,
            ) by {
                if p == ip {
                    assert(out[p] == row);
                    assert(out[q] == acc[q - 1]);
                    if q - 1 != ip {
                        assert(lex_lt(acc[ip].url, acc[q - 1].url));
                        lemma_lex_lt_transitive(row.url, acc[ip].url, acc[q - 1].url);
                    }
                } else if q == ip {
                    assert(out[p] == acc[p]);
                    assert(out[q] == row);
                    assert(acc[p].url != row.url);
                    lemma_lex_lt_trichotomy(acc[p].url, row.url);
                } else {
                    let lp = if p < ip {
                        p
                    } else {
                        p - 1
                    };
                    let lq = if q < ip {
                        q
                    } else {
                        q - 1
                    };
                    assert(out[p] == acc[lp]);
                    assert(out[q] == acc[lq]);
                }
            }
        },
    }
}

/// The merged image output is in strictly ascending URL order.
pub proof fn lemma_merged_img_sorted(rows: Seq<ImageResultModel>)
    ensures
        sorted_by_url_img(merged_img(rows)),
        forall|i: int, j: int|
            0 <= i < j < merged_img(rows).len() ==> (#[trigger] merged_img(rows)[i]).url != (
            #[trigger] merged_img(rows)[j]).url,
{
    lemma_merge_seq_img_sorted(Seq::empty(), rows);
    assert forall|i: int, j: int| 0 <= i < j < merged_img(rows).len() implies (
    #[trigger] merged_img(rows)[i]).url != (#[trigger] merged_img(rows)[j]).url by {
        assert(lex_lt(merged_img(rows)[i].url, merged_img(rows)[j].url));
        lemma_lex_lt_trichotomy(merged_img(rows)[i].url, merged_img(rows)[j].url);
    }
}

/// Merging any image rows into an ordered accumulator keeps it ordered.
proof fn lemma_merge_seq_img_sorted(acc: Seq<ImageResultModel>, rows: Seq<ImageResultModel>)
    requires
        sorted_by_url_img(acc),
    ensures
        sorted_by_url_img(merge_seq_img(acc, rows)),
    decreases rows.len(),
{
    if rows.len() > 0 {
        lemma_merge_one_img_sorted(acc, rows[0]);
        lemma_merge_seq_img_sorted(merge_one_img(acc, rows[0]), rows.drop_first());
    }
}

/// Deduplicate the flattened cross-engine list by exact URL in arrival
/// order — uniting engine provenance and backfilling empty titles and
/// descriptions — and return the merged rows in ascending URL order.
pub fn merge_results(results: Vec<SearchResult>) -> (r: Vec<SearchResult>)
    ensures
        sr_view(r@) == merged(sr_view(results@)),
{
    let mut out: Vec<SearchResult> = Vec::new();
    let n = results.len();
    let ghost rv = sr_view(results@);
    proof {
        assert(rv.take(0) =~= Seq::<SearchModel>::empty());
        assert(sr_view(out@) =~= Seq::<SearchModel>::empty());
    }
    let mut i: usize = 0;
    while i < n
        invariant
            n == results@.len(),
            rv == sr_view(results@),
            0 <= i <= n,
            sr_view(out@) == merge_seq(Seq::<SearchModel>::empty(), rv.take(i as int)),
        decreases n - i,
    {
        let ghost prev_out = sr_view(out@);
        let ghost row = rv[i as int];
        let ghost url = results@[i as int]@.url;
        // look for this row's URL among the merged rows
        let m = out.len();
        let mut found: Option<usize> = None;
        let mut j: usize = 0;
        while j < m
            invariant
                m == out@.len(),
                0 <= j <= m,
                i < n,
                n == results@.len(),
                prev_out == sr_view(out@),
                url == results@[i as int]@.url,
                match found {
                    Some(k) => k < j && find_merged(prev_out.take(j as int), url) == Some(
                        k as int,
                    ),
                    None => find_merged(prev_out.take(j as int), url) is None,
                },
            decreases m - j,
        {
            proof {
                assert(prev_out.take(j + 1).drop_last() =~= prev_out.take(j as int));
                assert(prev_out.take(j + 1).last() == prev_out[j as int]);
            }
            if found.is_none() {
                if crate::util::str_eq(out[j].url.as_str(), results[i].url.as_str()) {
                    found = Some(j);
                }
            }
            j += 1;
        }
        proof {
            assert(prev_out.take(m as int) =~= prev_out);
        }
        match found {
            Some(j2) => {
                // a repeat sighting: absorb it into the existing row
                let ghost prev_vec = out@;
                let e = &mut out[j2];
                let ghost e0 = *e;
                let mm = results[i].engines.len();
                proof {
                    assert(names_view(results@[i as int].engines@).take(0) =~= Seq::<
                        Seq<char>,
                    >::empty());
                }
                let mut k: usize = 0;
                while k < mm
                    invariant
                        i < results@.len(),
                        mm == results@[i as int].engines@.len(),
                        0 <= k <= mm,
                        e.url == e0.url,
                        e.title == e0.title,
                        e.description == e0.description,
                        e.cached == e0.cached,
                        names_view(e.engines@) == names_union(
                            names_view(e0.engines@),
                            names_view(results@[i as int].engines@).take(k as int),
                        ),
                    decreases mm - k,
                {
                    let ghost gname = results@[i as int].engines@[k as int]@;
                    let cnt = e.engines.len();
                    let mut present = false;
                    let mut t: usize = 0;
                    while t < cnt
                        invariant
                            cnt == e.engines@.len(),
                            0 <= t <= cnt,
                            i < results@.len(),
                            k < results@[i as int].engines@.len(),
                            gname == results@[i as int].engines@[k as int]@,
                            present <==> exists|w: int|
                                0 <= w < t && names_view(e.engines@)[w] == gname,
                        decreases cnt - t,
                    {
                        if crate::util::str_eq(
                            e.engines[t].as_str(),
                            results[i].engines[k].as_str(),
                        ) {
                            proof {
                                assert(names_view(e.engines@)[t as int] == gname);
                            }
                            present = true;
                        }
                        t += 1;
                    }
                    proof {
                        assert(present == names_view(e.engines@).contains(gname)) by {
                            if present {
                                let w = choose|w: int|
                                    0 <= w < t && names_view(e.engines@)[w] == gname;
                                assert(names_view(e.engines@).contains(gname));
                            } else {
                                if names_view(e.engines@).contains(gname) {
                                    let w = choose|w: int|
                                        0 <= w < names_view(e.engines@).len() && names_view(
                                            e.engines@,
                                        )[w] == gname;
                                    assert(false);
                                }
                            }
                        }
                    }
                    if !present {
                        let nv = results[i].engines[k].clone();
                        let ghost gnv = nv;
                        let ghost prev_e = e.engines@;
                        e.engines.push(nv);
                        proof {
                            assert(e.engines@ == prev_e.push(gnv));
                            assert forall|w: int|
                                0 <= w < prev_e.len() + 1 implies names_view(e.engines@)[w] == (
                            if w < prev_e.len() {
                                names_view(prev_e)[w]
                            } else {
                                gname
                            }) by {
                                if w < prev_e.len() {
                                    assert(prev_e.push(gnv)[w] == prev_e[w]);
                                } else {
                                    assert(prev_e.push(gnv)[w] == gnv);
                                }
                            }
                            assert(names_view(e.engines@) =~= names_view(prev_e).push(gname));
                        }
                    }
                    proof {
                        lemma_names_union_snoc(
                            names_view(e0.engines@),
                            names_view(results@[i as int].engines@).take(k as int),
                            gname,
                        );
                        assert(names_view(results@[i as int].engines@).take(k + 1) =~= names_view(
                            results@[i as int].engines@,
                        ).take(k as int).push(gname));
                    }
                    k += 1;
                }
                proof {
                    assert(names_view(results@[i as int].engines@).take(mm as int) =~= names_view(
                        results@[i as int].engines@,
                    ));
                }
                if e.description.as_str().is_empty() {
                    e.description = results[i].description.clone();
                }
                if e.title.as_str().is_empty() {
                    e.title = results[i].title.clone();
                }
                let ghost fe = *e;
                proof {
                    assert(e0 == prev_vec[j2 as int]);
                    assert(e0@ == prev_out[j2 as int]);
                    assert(fe@ =~= absorb(e0@, row));
                    assert(out@ == prev_vec.update(j2 as int, fe));
                    assert forall|w: int| 0 <= w < prev_out.len() implies sr_view(out@)[w]
                        == prev_out.update(j2 as int, fe@)[w] by {
                        if w != j2 {
                            assert(prev_vec.update(j2 as int, fe)[w] == prev_vec[w]);
                        } else {
                            assert(prev_vec.update(j2 as int, fe)[w] == fe);
                        }
                    }
                    assert(sr_view(out@) =~= prev_out.update(j2 as int, fe@));
                    assert(find_merged(prev_out, row.url) == Some(j2 as int));
                    assert(sr_view(out@) == merge_one(prev_out, row));
                }
            },
            None => {
                // a first sighting: insert it in URL order
                let m2 = out.len();
                let mut ins: usize = m2;
                let mut fnd = false;
                let mut k: usize = 0;
                while k < m2
                    invariant
                        m2 == out@.len(),
                        prev_out == sr_view(out@),
                        0 <= k <= m2,
                        i < results@.len(),
                        url == results@[i as int]@.url,
                        if fnd {
                            ins < k && first_after(prev_out.take(k as int), url) == Some(
                                ins as int,
                            )
                        } else {
                            ins == m2 && first_after(prev_out.take(k as int), url) is None
                        },
                    decreases m2 - k,
                {
                    proof {
                        assert(prev_out.take(k + 1).drop_last() =~= prev_out.take(k as int));
                        assert(prev_out.take(k + 1).last() == prev_out[k as int]);
                    }
                    if !fnd && crate::util::str_lt(results[i].url.as_str(), out[k].url.as_str()) {
                        ins = k;
                        fnd = true;
                    }
                    k += 1;
                }
                proof {
                    assert(prev_out.take(m2 as int) =~= prev_out);
                    assert(ins as int == merge_pos(prev_out, url));
                }
                let newrow = SearchResult {
                    url: results[i].url.clone(),
                    title: results[i].title.clone(),
                    description: results[i].description.clone(),
                    engines: clone_names(&results[i].engines),
                    cached: results[i].cached,
                };
                let ghost gn = newrow;
                let ghost prev_vec = out@;
                out.insert(ins, newrow);
                proof {
                    assert(gn@ =~= row);
                    assert(out@ == prev_vec.insert(ins as int, gn));
                    assert forall|w: int| 0 <= w < prev_out.len() + 1 implies sr_view(out@)[w]
                        == prev_out.insert(ins as int, row)[w] by {
                        if w < ins {
                            assert(prev_vec.insert(ins as int, gn)[w] == prev_vec[w]);
                        } else if w == ins {
                            assert(prev_vec.insert(ins as int, gn)[w] == gn);
                        } else {
                            assert(prev_vec.insert(ins as int, gn)[w] == prev_vec[w - 1]);
                        }
                    }
                    assert(sr_view(out@) =~= prev_out.insert(ins as int, row));
                    assert(find_merged(prev_out, row.url) is None);
                    assert(sr_view(out@) == merge_one(prev_out, row));
                }
            },
        }
        proof {
            lemma_merge_seq_snoc(Seq::<SearchModel>::empty(), rv.take(i as int), rv[i as int]);
            assert(rv.take(i + 1) =~= rv.take(i as int).push(rv[i as int]));
            assert(sr_view(out@) == merge_seq(Seq::<SearchModel>::empty(), rv.take(i + 1)));
        }
        i += 1;
    }
    proof {
        assert(rv.take(n as int) =~= rv);
    }
    out
}

/// The image twin of `merge_images`: dedup by exact URL in arrival
/// order, unite engine provenance, backfill empty titles, and return the
/// merged image rows in ascending URL order.
pub fn merge_images(images: Vec<ImageResult>) -> (r: Vec<ImageResult>)
    ensures
        ir_view(r@) == merged_img(ir_view(images@)),
{
    let mut out: Vec<ImageResult> = Vec::new();
    let n = images.len();
    let ghost rv = ir_view(images@);
    proof {
        assert(rv.take(0) =~= Seq::<ImageResultModel>::empty());
        assert(ir_view(out@) =~= Seq::<ImageResultModel>::empty());
    }
    let mut i: usize = 0;
    while i < n
        invariant
            n == images@.len(),
            rv == ir_view(images@),
            0 <= i <= n,
            ir_view(out@) == merge_seq_img(Seq::<ImageResultModel>::empty(), rv.take(i as int)),
        decreases n - i,
    {
        let ghost prev_out = ir_view(out@);
        let ghost row = rv[i as int];
        let ghost url = images@[i as int]@.url;
        // look for this row's URL among the merged rows
        let m = out.len();
        let mut found: Option<usize> = None;
        let mut j: usize = 0;
        while j < m
            invariant
                m == out@.len(),
                0 <= j <= m,
                i < n,
                n == images@.len(),
                prev_out == ir_view(out@),
                url == images@[i as int]@.url,
                match found {
                    Some(k) => k < j && find_merged_img(prev_out.take(j as int), url) == Some(
                        k as int,
                    ),
                    None => find_merged_img(prev_out.take(j as int), url) is None,
                },
            decreases m - j,
        {
            proof {
                assert(prev_out.take(j + 1).drop_last() =~= prev_out.take(j as int));
                assert(prev_out.take(j + 1).last() == prev_out[j as int]);
            }
            if found.is_none() {
                if crate::util::str_eq(out[j].url.as_str(), images[i].url.as_str()) {
                    found = Some(j);
                }
            }
            j += 1;
        }
        proof {
            assert(prev_out.take(m as int) =~= prev_out);
        }
        match found {
            Some(j2) => {
                // a repeat sighting: absorb it into the existing row
                let ghost prev_vec = out@;
                let e = &mut out[j2];
                let ghost e0 = *e;
                let mm = images[i].engines.len();
                proof {
                    assert(names_view(images@[i as int].engines@).take(0) =~= Seq::<
                        Seq<char>,
                    >::empty());
                }
                let mut k: usize = 0;
                while k < mm
                    invariant
                        i < images@.len(),
                        mm == images@[i as int].engines@.len(),
                        0 <= k <= mm,
                        e.url == e0.url,
                        e.title == e0.title,
                        e.cached == e0.cached,
                        names_view(e.engines@) == names_union(
                            names_view(e0.engines@),
                            names_view(images@[i as int].engines@).take(k as int),
                        ),
                    decreases mm - k,
                {
                    let ghost gname = images@[i as int].engines@[k as int]@;
                    let cnt = e.engines.len();
                    let mut present = false;
                    let mut t: usize = 0;
                    while t < cnt
                        invariant
                            cnt == e.engines@.len(),
                            0 <= t <= cnt,
                            i < images@.len(),
                            k < images@[i as int].engines@.len(),
                            gname == images@[i as int].engines@[k as int]@,
                            present <==> exists|w: int|
                                0 <= w < t && names_view(e.engines@)[w] == gname,
                        decreases cnt - t,
                    {
                        if crate::util::str_eq(
                            e.engines[t].as_str(),
                            images[i].engines[k].as_str(),
                        ) {
                            proof {
                                assert(names_view(e.engines@)[t as int] == gname);
                            }
                            present = true;
                        }
                        t += 1;
                    }
                    proof {
                        assert(present == names_view(e.engines@).contains(gname)) by {
                            if present {
                                let w = choose|w: int|
                                    0 <= w < t && names_view(e.engines@)[w] == gname;
                                assert(names_view(e.engines@).contains(gname));
                            } else {
                                if names_view(e.engines@).contains(gname) {
                                    let w = choose|w: int|
                                        0 <= w < names_view(e.engines@).len() && names_view(
                                            e.engines@,
                                        )[w] == gname;
                                    assert(false);
                                }
                            }
                        }
                    }
                    if !present {
                        let nv = images[i].engines[k].clone();
                        let ghost gnv = nv;
                        let ghost prev_e = e.engines@;
                        e.engines.push(nv);
                        proof {
                            assert(e.engines@ == prev_e.push(gnv));
                            assert forall|w: int|
                                0 <= w < prev_e.len() + 1 implies names_view(e.engines@)[w] == (
                            if w < prev_e.len() {
                                names_view(prev_e)[w]
                            } else {
                                gname
                            }) by {
                                if w < prev_e.len() {
                                    assert(prev_e.push(gnv)[w] == prev_e[w]);
                                } else {
                                    assert(prev_e.push(gnv)[w] == gnv);
                                }
                            }
                            assert(names_view(e.engines@) =~= names_view(prev_e).push(gname));
                        }
                    }
                    proof {
                        lemma_names_union_snoc(
                            names_view(e0.engines@),
                            names_view(images@[i as int].engines@).take(k as int),
                            gname,
                        );
                        assert(names_view(images@[i as int].engines@).take(k + 1) =~= names_view(
                            images@[i as int].engines@,
                        ).take(k as int).push(gname));
                    }
                    k += 1;
                }
                proof {
                    assert(names_view(images@[i as int].engines@).take(mm as int) =~= names_view(
                        images@[i as int].engines@,
                    ));
                }
                if e.title.as_str().is_empty() {
                    e.title = images[i].title.clone();
                }
                let ghost fe = *e;
                proof {
                    assert(e0 == prev_vec[j2 as int]);
                    assert(e0@ == prev_out[j2 as int]);
                    assert(fe@ =~= absorb_img(e0@, row));
                    assert(out@ == prev_vec.update(j2 as int, fe));
                    assert forall|w: int| 0 <= w < prev_out.len() implies ir_view(out@)[w]
                        == prev_out.update(j2 as int, fe@)[w] by {
                        if w != j2 {
                            assert(prev_vec.update(j2 as int, fe)[w] == prev_vec[w]);
                        } else {
                            assert(prev_vec.update(j2 as int, fe)[w] == fe);
                        }
                    }
                    assert(ir_view(out@) =~= prev_out.update(j2 as int, fe@));
                    assert(find_merged_img(prev_out, row.url) == Some(j2 as int));
                    assert(ir_view(out@) == merge_one_img(prev_out, row));
                }
            },
            None => {
                // a first sighting: insert it in URL order
                let m2 = out.len();
                let mut ins: usize = m2;
                let mut fnd = false;
                let mut k: usize = 0;
                while k < m2
                    invariant
                        m2 == out@.len(),
                        prev_out == ir_view(out@),
                        0 <= k <= m2,
                        i < images@.len(),
                        url == images@[i as int]@.url,
                        if fnd {
                            ins < k && first_after_img(prev_out.take(k as int), url) == Some(
                                ins as int,
                            )
                        } else {
                            ins == m2 && first_after_img(prev_out.take(k as int), url) is None
                        },
                    decreases m2 - k,
                {
                    proof {
                        assert(prev_out.take(k + 1).drop_last() =~= prev_out.take(k as int));
                        assert(prev_out.take(k + 1).last() == prev_out[k as int]);
                    }
                    if !fnd && crate::util::str_lt(images[i].url.as_str(), out[k].url.as_str()) {
                        ins = k;
                        fnd = true;
                    }
                    k += 1;
                }
                proof {
                    assert(prev_out.take(m2 as int) =~= prev_out);
                    assert(ins as int == merge_pos_img(prev_out, url));
                }
                let newrow = ImageResult {
                    url: images[i].url.clone(),
                    title: images[i].title.clone(),
                    engines: clone_names(&images[i].engines),
                    cached: images[i].cached,
                };
                let ghost gn = newrow;
                let ghost prev_vec = out@;
                out.insert(ins, newrow);
                proof {
                    assert(gn@ =~= row);
                    assert(out@ == prev_vec.insert(ins as int, gn));
                    assert forall|w: int| 0 <= w < prev_out.len() + 1 implies ir_view(out@)[w]
                        == prev_out.insert(ins as int, row)[w] by {
                        if w < ins {
                            assert(prev_vec.insert(ins as int, gn)[w] == prev_vec[w]);
                        } else if w == ins {
                            assert(prev_vec.insert(ins as int, gn)[w] == gn);
                        } else {
                            assert(prev_vec.insert(ins as int, gn)[w] == prev_vec[w - 1]);
                        }
                    }
                    assert(ir_view(out@) =~= prev_out.insert(ins as int, row));
                    assert(find_merged_img(prev_out, row.url) is None);
                    assert(ir_view(out@) == merge_one_img(prev_out, row));
                }
            },
        }
        proof {
            lemma_merge_seq_img_snoc(Seq::<ImageResultModel>::empty(), rv.take(i as int), rv[i as int]);
            assert(rv.take(i + 1) =~= rv.take(i as int).push(rv[i as int]));
            assert(ir_view(out@) == merge_seq_img(Seq::<ImageResultModel>::empty(), rv.take(i + 1)));
        }
        i += 1;
    }
    proof {
        assert(rv.take(n as int) =~= rv);
    }
    out
}

/// Clone a list of engine names, name for name.
pub fn clone_names(v: &Vec<String>) -> (r: Vec<String>)
    ensures
        names_view(r@) == names_view(v@),
{
    let mut r: Vec<String> = Vec::new();
    let n = v.len();
    let mut t: usize = 0;
    while t < n
        invariant
            n == v@.len(),
            0 <= t <= n,
            r@.len() == t,
            forall|k: int| 0 <= k < t ==> (#[trigger] r@[k])@ == v@[k]@,
        decreases n - t,
    {
        let nv = v[t].clone();
        let ghost gnv = nv;
        let ghost prev = r@;
        r.push(nv);
        proof {
            assert(r@ == prev.push(gnv));
            assert forall|k: int| 0 <= k < t + 1 implies (#[trigger] r@[k])@ == v@[k]@ by {
                if k < t {
                    assert(prev.push(gnv)[k] == prev[k]);
                } else {
                    assert(prev.push(gnv)[k] == gnv);
                }
            }
        }
        t += 1;
    }
    proof {
        assert forall|k: int| 0 <= k < n implies names_view(r@)[k] == names_view(v@)[k] by {
            assert(r@[k]@ == v@[k]@);
        }
        assert(names_view(r@) =~= names_view(v@));
    }
    r
}

} // verus!
