//! The fetch-and-extract step after the fetch: walk the anchors of a page
//! body, normalize each href against the page URL, and feed the new URLs
//! into the frontier.

use vstd::prelude::*;
use crate::norm::base_ok;
use crate::norm::spec_normalize;
use crate::norm::normalize_href;
use crate::state::CrawlState;
use crate::state::spec_enqueue_if_new;
use crate::state::spec_mark_visited;
use crate::state::views_of;

verus! {

/// The href attribute of each anchor element of an HTML document, in
/// document order, a missing attribute standing as the empty string. Only
/// the HTML parser defines the value; it depends on the document text alone.
pub uninterp spec fn hrefs_of(body: Seq<char>) -> Seq<Seq<char>>;

/// Relies on scraper's `Html::parse_document`, `Selector::parse` and
/// `ElementRef::attr`: yields the `href` attribute of every `a` element of
/// the document, in document order, an absent attribute as `""`. The
/// selector `"a"` always parses. The result is a function of the document
/// text alone.
#[verifier::external_body]
fn extract_hrefs(body: &str) -> (r: Vec<String>)
    ensures
        views_of(r@) == hrefs_of(body@),
{
    let document = scraper::Html::parse_document(body);
    let anchors = scraper::Selector::parse("a").unwrap();
    let mut out = Vec::new();
    for element in document.select(&anchors) {
        out.push(element.value().attr("href").unwrap_or("").to_string());
    }
    out
}

/// The frontier after offering every href of `hrefs`, in order, to
/// `enqueueIfNew`: each is normalized against `base`; a rejected href is
/// skipped, an accepted one enters the tail unless already queued or in
/// `vis`.
pub open spec fn spec_enqueue_links(
    fr: Seq<Seq<char>>,
    vis: Set<Seq<char>>,
    base: Seq<char>,
    hrefs: Seq<Seq<char>>,
) -> Seq<Seq<char>>
    decreases hrefs.len(),
{
    if hrefs.len() == 0 {
        fr
    } else {
        let fr1 = match spec_normalize(hrefs[0], base) {
            Some(u) => spec_enqueue_if_new(fr, vis, u),
            None => fr,
        };
        spec_enqueue_links(fr1, vis, base, hrefs.drop_first())
    }
}

/// Offer every href of `hrefs`, in order, to the frontier, normalized
/// against the page URL `page`. The visited record does not move.
pub fn apply_links(state: &mut CrawlState, page: &str, hrefs: &Vec<String>)
    requires
        old(state).wf(),
        base_ok(page@),
    ensures
        final(state).wf(),
        final(state).visited_seq() == old(state).visited_seq(),
        final(state).frontier_view() == spec_enqueue_links(
            old(state).frontier_view(),
            old(state).visited_view(),
            page@,
            views_of(hrefs@),
        ),
{
    let ghost all = views_of(hrefs@);
    let ghost vis = old(state).visited_view();
    let ghost goal = spec_enqueue_links(old(state).frontier_view(), vis, page@, all);
    proof {
        assert(all.subrange(0, all.len() as int) =~= all);
    }
    let mut i: usize = 0;
    while i < hrefs.len()
        invariant
            0 <= i <= hrefs@.len(),
            all == views_of(hrefs@),
            state.wf(),
            state.visited_seq() == old(state).visited_seq(),
            vis == state.visited_view(),
            base_ok(page@),
            goal == spec_enqueue_links(
                state.frontier_view(),
                vis,
                page@,
                all.subrange(i as int, all.len() as int),
            ),
        decreases hrefs@.len() - i,
    {
        let ghost rest = all.subrange(i as int, all.len() as int);
        proof {
            assert(rest[0] == all[i as int]);
            assert(rest.drop_first() =~= all.subrange(i + 1, all.len() as int));
        }
        match normalize_href(hrefs[i].as_str(), page) {
            Some(u) => {
                state.enqueue_if_new(u);
            },
            None => {},
        }
        i = i + 1;
    }
    proof {
        assert(all.subrange(i as int, all.len() as int).len() == 0);
    }
}

/// The fetch-and-extract step on a fetched page: mark the page URL visited,
/// then extract every anchor href of `body` and enqueue the acceptable new
/// ones, all against the visited set as it stands after the marking.
pub fn process_page(state: &mut CrawlState, page: &str, body: &str)
    requires
        old(state).wf(),
        base_ok(page@),
    ensures
        final(state).wf(),
        final(state).visited_seq() == spec_mark_visited(old(state).visited_seq(), page@),
        final(state).visited_view() =~= old(state).visited_view().insert(page@),
        final(state).frontier_view() == spec_enqueue_links(
            old(state).frontier_view(),
            old(state).visited_view().insert(page@),
            page@,
            hrefs_of(body@),
        ),
{
    let hrefs = extract_hrefs(body);
    state.mark_visited(String::from_str(page));
    apply_links(state, page, &hrefs);
}

/// No queued URL has been fetched already. A fresh crawl starts this way,
/// and the step lemmas below keep it so between fetches.
pub open spec fn frontier_fresh(fr: Seq<Seq<char>>, vis: Set<Seq<char>>) -> bool {
    forall|i: int| 0 <= i < fr.len() ==> !vis.contains(fr[i])
}

/// Dropping the head keeps a sequence duplicate-free.
proof fn lemma_drop_first_no_duplicates(fr: Seq<Seq<char>>)
    requires
        fr.no_duplicates(),
        fr.len() > 0,
    ensures
        fr.drop_first().no_duplicates(),
{
    let t = fr.drop_first();
    assert forall|i: int, j: int|
        0 <= i < t.len() && 0 <= j < t.len() && i != j implies t[i] != t[j] by {
        assert(t[i] == fr[i + 1] && t[j] == fr[j + 1]);
    }
}

/// Offering any hrefs to a duplicate-free frontier that holds no visited URL
/// leaves it duplicate-free and still free of visited URLs.
pub proof fn lemma_enqueue_links_fresh(
    fr: Seq<Seq<char>>,
    vis: Set<Seq<char>>,
    base: Seq<char>,
    hrefs: Seq<Seq<char>>,
)
    requires
        fr.no_duplicates(),
        frontier_fresh(fr, vis),
    ensures
        spec_enqueue_links(fr, vis, base, hrefs).no_duplicates(),
        frontier_fresh(spec_enqueue_links(fr, vis, base, hrefs), vis),
    decreases hrefs.len(),
{
    if hrefs.len() > 0 {
        let fr1 = match spec_normalize(hrefs[0], base) {
            Some(u) => spec_enqueue_if_new(fr, vis, u),
            None => fr,
        };
        match spec_normalize(hrefs[0], base) {
            Some(u) => {
                crate::state::lemma_no_duplicate_enqueue(fr, vis, u);
                assert(frontier_fresh(fr1, vis)) by {
                    if !fr.contains(u) && !vis.contains(u) {
                        assert forall|i: int| 0 <= i < fr1.len() implies !vis.contains(
                            fr1[i],
                        ) by {
                            if i < fr.len() {
                                assert(fr1[i] == fr[i]);
                            } else {
                                assert(fr1[i] == u);
                            }
                        }
                    }
                }
            },
            None => {},
        }
        lemma_enqueue_links_fresh(fr1, vis, base, hrefs.drop_first());
    }
}

/// *Resume idempotence.* In a state whose frontier holds no already-visited
/// URL — as a fresh crawl does, and as a checkpoint written between fetches
/// does — the URL a worker pops was never fetched before, and after the whole
/// fetch-and-extract step the frontier again holds no visited URL: by
/// induction over steps, no URL in a restored checkpoint's visited set is
/// ever fetched again.
pub proof fn lemma_resume_no_refetch(
    fr: Seq<Seq<char>>,
    vis: Set<Seq<char>>,
    hrefs: Seq<Seq<char>>,
)
    requires
        fr.no_duplicates(),
        frontier_fresh(fr, vis),
        fr.len() > 0,
    ensures
        !vis.contains(fr[0]),
        spec_enqueue_links(
            fr.drop_first(),
            vis.insert(fr[0]),
            fr[0],
            hrefs,
        ).no_duplicates(),
        frontier_fresh(
            spec_enqueue_links(fr.drop_first(), vis.insert(fr[0]), fr[0], hrefs),
            vis.insert(fr[0]),
        ),
{
    let u = fr[0];
    let rest = fr.drop_first();
    lemma_drop_first_no_duplicates(fr);
    crate::state::lemma_dequeue_exclusive(fr);
    assert(frontier_fresh(rest, vis.insert(u))) by {
        assert forall|i: int| 0 <= i < rest.len() implies !vis.insert(u).contains(rest[i]) by {
            assert(rest[i] == fr[i + 1]);
            assert(!vis.contains(fr[i + 1]));
            if rest[i] == u {
                assert(rest.contains(rest[i]));
            }
        }
    }
    lemma_enqueue_links_fresh(rest, vis.insert(u), u, hrefs);
}

} // verus!
