//! Draining a finite link graph: with the pages given as a finite table from
//! URL to extracted hrefs, repeatedly popping, marking and enqueueing
//! provably terminates — the frontier empties after finitely many steps.

use vstd::prelude::*;
use crate::norm::base_is_splittable;
use crate::norm::spec_normalize;
use crate::process::apply_links;
use crate::process::frontier_fresh;
use crate::process::lemma_resume_no_refetch;
use crate::process::spec_enqueue_links;
use crate::state::CrawlState;
use crate::state::spec_enqueue_if_new;
use crate::state::views_of;

verus! {

/// The URLs that normalizing the hrefs of one page can contribute.
pub open spec fn page_targets(page: Seq<char>, hrefs: Seq<Seq<char>>) -> Seq<Seq<char>>
    decreases hrefs.len(),
{
    if hrefs.len() == 0 {
        Seq::empty()
    } else {
        (match spec_normalize(hrefs[0], page) {
            Some(u) => seq![u],
            None => Seq::<Seq<char>>::empty(),
        }) + page_targets(page, hrefs.drop_first())
    }
}

/// Every URL any row of the page table can contribute.
pub open spec fn table_targets(tbl: Seq<(String, Vec<String>)>) -> Seq<Seq<char>>
    decreases tbl.len(),
{
    if tbl.len() == 0 {
        Seq::empty()
    } else {
        page_targets(tbl[0].0@, views_of(tbl[0].1@)) + table_targets(tbl.drop_first())
    }
}

/// Whatever enqueueing the links of one page adds to the frontier comes from
/// that page's targets.
proof fn lemma_enqueue_links_targets(
    fr: Seq<Seq<char>>,
    vis: Set<Seq<char>>,
    base: Seq<char>,
    hrefs: Seq<Seq<char>>,
)
    ensures
        forall|x: Seq<char>|
            spec_enqueue_links(fr, vis, base, hrefs).contains(x) ==> fr.contains(x)
                || page_targets(base, hrefs).contains(x),
    decreases hrefs.len(),
{
    if hrefs.len() > 0 {
        let fr1 = match spec_normalize(hrefs[0], base) {
            Some(u) => spec_enqueue_if_new(fr, vis, u),
            None => fr,
        };
        let rest = hrefs.drop_first();
        lemma_enqueue_links_targets(fr1, vis, base, rest);
        let head_targets = match spec_normalize(hrefs[0], base) {
            Some(u) => seq![u],
            None => Seq::<Seq<char>>::empty(),
        };
        assert forall|x: Seq<char>|
            spec_enqueue_links(fr, vis, base, hrefs).contains(x) implies fr.contains(x)
            || page_targets(base, hrefs).contains(x) by {
            if fr1.contains(x) || page_targets(base, rest).contains(x) {
                if fr1.contains(x) && !fr.contains(x) {
                    match spec_normalize(hrefs[0], base) {
                        Some(u) => {
                            let j = choose|j: int| 0 <= j < fr1.len() && fr1[j] == x;
                            assert(x == u);
                            assert(head_targets.contains(x)) by {
                                assert(head_targets[0] == x);
                            }
                            assert(page_targets(base, hrefs)[0] == x);
                        },
                        None => {},
                    }
                } else if page_targets(base, rest).contains(x) {
                    let j = choose|j: int|
                        0 <= j < page_targets(base, rest).len() && page_targets(base, rest)[j]
                            == x;
                    assert(page_targets(base, hrefs) == head_targets + page_targets(base, rest));
                    assert(page_targets(base, hrefs)[head_targets.len() + j] == x);
                }
            }
        }
    }
}

/// A row's targets are among the whole table's targets.
proof fn lemma_row_targets_in_table(tbl: Seq<(String, Vec<String>)>, i: int)
    requires
        0 <= i < tbl.len(),
    ensures
        forall|x: Seq<char>|
            page_targets(tbl[i].0@, views_of(tbl[i].1@)).contains(x) ==> table_targets(
                tbl,
            ).contains(x),
    decreases i,
{
    let head = page_targets(tbl[0].0@, views_of(tbl[0].1@));
    let tail = table_targets(tbl.drop_first());
    if i == 0 {
        assert forall|x: Seq<char>| head.contains(x) implies table_targets(tbl).contains(x) by {
            let j = choose|j: int| 0 <= j < head.len() && head[j] == x;
            assert(table_targets(tbl)[j] == x);
        }
    } else {
        lemma_row_targets_in_table(tbl.drop_first(), i - 1);
        assert(tbl.drop_first()[i - 1] == tbl[i]);
        assert forall|x: Seq<char>|
            page_targets(tbl[i].0@, views_of(tbl[i].1@)).contains(x) implies table_targets(
            tbl,
        ).contains(x) by {
            assert(tail.contains(x));
            let j = choose|j: int| 0 <= j < tail.len() && tail[j] == x;
            assert(table_targets(tbl)[head.len() + j] == x);
        }
    }
}

/// A URL the drain can fetch: some row carries it, and it can serve as a
/// base for its own links.
pub open spec fn fetchable(tbl: Seq<(String, Vec<String>)>, u: Seq<char>) -> bool {
    (exists|i: int| 0 <= i < tbl.len() && tbl[i].0@ == u) && crate::norm::base_ok(u)
}

/// A frontier only grows under enqueueing: nothing already queued leaves.
proof fn lemma_enqueue_links_monotone(
    fr: Seq<Seq<char>>,
    vis: Set<Seq<char>>,
    base: Seq<char>,
    hrefs: Seq<Seq<char>>,
)
    ensures
        forall|t: Seq<char>| #[trigger]
            fr.contains(t) ==> spec_enqueue_links(fr, vis, base, hrefs).contains(t),
    decreases hrefs.len(),
{
    if hrefs.len() > 0 {
        let fr1 = match spec_normalize(hrefs[0], base) {
            Some(u) => spec_enqueue_if_new(fr, vis, u),
            None => fr,
        };
        lemma_enqueue_links_monotone(fr1, vis, base, hrefs.drop_first());
        assert forall|t: Seq<char>| #[trigger]
            fr.contains(t) implies spec_enqueue_links(fr, vis, base, hrefs).contains(t) by {
            let j = choose|j: int| 0 <= j < fr.len() && fr[j] == t;
            assert(fr1[j] == t);
            assert(fr1.contains(t));
        }
    }
}

/// No target of a page is lost on its links being offered: each ends up in
/// the frontier unless it already counts as visited.
proof fn lemma_enqueue_links_complete(
    fr: Seq<Seq<char>>,
    vis: Set<Seq<char>>,
    base: Seq<char>,
    hrefs: Seq<Seq<char>>,
)
    ensures
        forall|t: Seq<char>| #[trigger]
            page_targets(base, hrefs).contains(t) ==> spec_enqueue_links(
                fr,
                vis,
                base,
                hrefs,
            ).contains(t) || vis.contains(t),
    decreases hrefs.len(),
{
    if hrefs.len() > 0 {
        let fr1 = match spec_normalize(hrefs[0], base) {
            Some(u) => spec_enqueue_if_new(fr, vis, u),
            None => fr,
        };
        let rest = hrefs.drop_first();
        let head_targets = match spec_normalize(hrefs[0], base) {
            Some(u) => seq![u],
            None => Seq::<Seq<char>>::empty(),
        };
        lemma_enqueue_links_complete(fr1, vis, base, rest);
        lemma_enqueue_links_monotone(fr1, vis, base, rest);
        assert forall|t: Seq<char>| #[trigger]
            page_targets(base, hrefs).contains(t) implies spec_enqueue_links(
            fr,
            vis,
            base,
            hrefs,
        ).contains(t) || vis.contains(t) by {
            let j = choose|j: int|
                0 <= j < page_targets(base, hrefs).len() && page_targets(base, hrefs)[j] == t;
            assert(page_targets(base, hrefs) == head_targets + page_targets(base, rest));
            if j < head_targets.len() {
                match spec_normalize(hrefs[0], base) {
                    Some(u) => {
                        assert(t == u);
                        if !vis.contains(u) {
                            assert(fr1.contains(u)) by {
                                if fr.contains(u) {
                                } else {
                                    assert(fr1[fr.len() as int] == u);
                                }
                            }
                            assert(spec_enqueue_links(fr1, vis, base, rest).contains(u));
                        }
                    },
                    None => {},
                }
            } else {
                assert(page_targets(base, rest)[j - head_targets.len()] == t);
                assert(page_targets(base, rest).contains(t));
            }
        }
    }
}

/// The row of `pages` whose URL is `url`, if any.
fn find_row(pages: &Vec<(String, Vec<String>)>, url: &String) -> (r: Option<usize>)
    ensures
        match r {
            Some(i) => i < pages@.len() && pages@[i as int].0@ == url@,
            None => forall|k: int| 0 <= k < pages@.len() ==> pages@[k].0@ != url@,
        },
{
    let mut i: usize = 0;
    while i < pages.len()
        invariant
            0 <= i <= pages@.len(),
            forall|k: int| 0 <= k < i ==> pages@[k].0@ != url@,
        decreases pages@.len() - i,
    {
        if pages[i].0 == *url {
            return Some(i);
        }
        i = i + 1;
    }
    None
}

/// *Drain termination and coverage.* Pop, fetch and enqueue until the
/// frontier is empty, against a finite page table standing for the reachable
/// link graph: a row is a page that a fetch would yield, with the hrefs
/// extracted from it; a URL with no row is a failed fetch and is dropped
/// unvisited, as is one that cannot serve as a base. Verus accepts the
/// loop's termination measure, so the drain ends after finitely many steps
/// for every finite graph, with the frontier empty. Moreover nothing is
/// lost: every fetchable URL of the starting frontier is visited, and every
/// fetchable target of every page visited along the way is visited too — so
/// each URL reachable through fetchable pages ends up in the visited set,
/// and, the popped URL never having been visited before, each is fetched
/// exactly once.
pub fn drain(state: &mut CrawlState, pages: &Vec<(String, Vec<String>)>)
    requires
        old(state).wf(),
        frontier_fresh(old(state).frontier_view(), old(state).visited_view()),
        forall|a: int, b: int| 0 <= a < b < pages@.len() ==> pages@[a].0@ != pages@[b].0@,
    ensures
        final(state).wf(),
        final(state).frontier_view().len() == 0,
        frontier_fresh(final(state).frontier_view(), final(state).visited_view()),
        forall|x: Seq<char>|
            old(state).visited_view().contains(x) ==> final(state).visited_view().contains(x),
        forall|t: Seq<char>| #[trigger]
            old(state).frontier_view().contains(t) && fetchable(pages@, t) ==> final(state).visited_view().contains(t),
        forall|pi: int, t: Seq<char>|
            #![trigger page_targets(pages@[pi].0@, views_of(pages@[pi].1@)).contains(t)]
            0 <= pi < pages@.len() && final(state).visited_view().contains(pages@[pi].0@) && !old(
                state,
            ).visited_view().contains(pages@[pi].0@) && crate::norm::base_ok(pages@[pi].0@)
                && page_targets(pages@[pi].0@, views_of(pages@[pi].1@)).contains(t) && fetchable(
                pages@,
                t,
            ) ==> final(state).visited_view().contains(t),
{
    broadcast use vstd::set::group_set_axioms;

    let ghost uni = (old(state).frontier_view() + old(state).visited_seq() + table_targets(
        pages@,
    )).to_set();
    proof {
        (old(state).frontier_view() + old(state).visited_seq() + table_targets(
            pages@,
        )).lemma_cardinality_of_set();
        assert forall|x: Seq<char>|
            old(state).frontier_view().contains(x) implies uni.contains(x) by {
            let all = old(state).frontier_view() + old(state).visited_seq() + table_targets(
                pages@,
            );
            let j = choose|j: int|
                0 <= j < old(state).frontier_view().len() && old(state).frontier_view()[j] == x;
            assert(all[j] == x);
        }
        assert forall|x: Seq<char>|
            old(state).visited_view().contains(x) implies uni.contains(x) by {
            let all = old(state).frontier_view() + old(state).visited_seq() + table_targets(
                pages@,
            );
            let j = choose|j: int|
                0 <= j < old(state).visited_seq().len() && old(state).visited_seq()[j] == x;
            assert(all[old(state).frontier_view().len() + j] == x);
        }
        vstd::set_lib::lemma_len_subset(old(state).visited_view(), uni);
    }
    loop
        invariant
            state.wf(),
            frontier_fresh(state.frontier_view(), state.visited_view()),
            uni.finite(),
            uni == (old(state).frontier_view() + old(state).visited_seq() + table_targets(
                pages@,
            )).to_set(),
            state.visited_view().finite(),
            forall|a: int, b: int| 0 <= a < b < pages@.len() ==> pages@[a].0@ != pages@[b].0@,
            forall|x: Seq<char>| #[trigger] state.frontier_view().contains(x) ==> uni.contains(x),
            forall|x: Seq<char>| #[trigger] state.visited_view().contains(x) ==> uni.contains(x),
            state.visited_view().len() <= uni.len(),
            forall|x: Seq<char>| #[trigger]
                old(state).visited_view().contains(x) ==> state.visited_view().contains(x),
            forall|t: Seq<char>| #[trigger]
                old(state).frontier_view().contains(t) ==> state.frontier_view().contains(t)
                    || state.visited_view().contains(t) || !fetchable(pages@, t),
            forall|pi: int, t: Seq<char>|
                #![trigger page_targets(pages@[pi].0@, views_of(pages@[pi].1@)).contains(t)]
                0 <= pi < pages@.len() && state.visited_view().contains(pages@[pi].0@) && !old(
                    state,
                ).visited_view().contains(pages@[pi].0@) && crate::norm::base_ok(pages@[pi].0@)
                    && page_targets(pages@[pi].0@, views_of(pages@[pi].1@)).contains(t)
                    ==> state.frontier_view().contains(t) || state.visited_view().contains(t)
                    || !fetchable(pages@, t),
        ensures
            state.wf(),
            state.frontier_view().len() == 0,
            frontier_fresh(state.frontier_view(), state.visited_view()),
            forall|x: Seq<char>|
                old(state).visited_view().contains(x) ==> state.visited_view().contains(x),
            forall|t: Seq<char>| #[trigger]
                old(state).frontier_view().contains(t) ==> state.frontier_view().contains(t)
                    || state.visited_view().contains(t) || !fetchable(pages@, t),
            forall|pi: int, t: Seq<char>|
                #![trigger page_targets(pages@[pi].0@, views_of(pages@[pi].1@)).contains(t)]
                0 <= pi < pages@.len() && state.visited_view().contains(pages@[pi].0@) && !old(
                    state,
                ).visited_view().contains(pages@[pi].0@) && crate::norm::base_ok(pages@[pi].0@)
                    && page_targets(pages@[pi].0@, views_of(pages@[pi].1@)).contains(t)
                    ==> state.frontier_view().contains(t) || state.visited_view().contains(t)
                    || !fetchable(pages@, t),
        decreases uni.len() - state.visited_view().len(), state.frontier_view().len(),
    {
        let ghost fr0 = state.frontier_view();
        let ghost vis0 = state.visited_view();
        proof {
            assert forall|x: Seq<char>| #[trigger] fr0.contains(x) implies uni.contains(x) by {
                assert(state.frontier_view().contains(x));
            }
            assert forall|x: Seq<char>| #[trigger] vis0.contains(x) implies uni.contains(x) by {
                assert(state.visited_view().contains(x));
            }
            assert forall|x: Seq<char>|
                old(state).visited_view().contains(x) implies #[trigger] vis0.contains(x) by {
                assert(state.visited_view().contains(x));
            }
            assert forall|t: Seq<char>| #[trigger]
                old(state).frontier_view().contains(t) implies fr0.contains(t) || vis0.contains(
                t,
            ) || !fetchable(pages@, t) by {
                assert(state.frontier_view().contains(t) || state.visited_view().contains(t)
                    || !fetchable(pages@, t));
            }
            assert forall|pi: int, t: Seq<char>|
                #![trigger page_targets(pages@[pi].0@, views_of(pages@[pi].1@)).contains(t)]
                0 <= pi < pages@.len() && vis0.contains(pages@[pi].0@) && !old(
                    state,
                ).visited_view().contains(pages@[pi].0@) && crate::norm::base_ok(pages@[pi].0@)
                    && page_targets(pages@[pi].0@, views_of(pages@[pi].1@)).contains(
                    t,
                ) implies fr0.contains(t) || vis0.contains(t) || !fetchable(pages@, t) by {
                assert(state.visited_view().contains(pages@[pi].0@));
                assert(state.frontier_view().contains(t) || state.visited_view().contains(t)
                    || !fetchable(pages@, t));
            }
        }
        let next = state.dequeue();
        match next {
            None => {
                break ;
            },
            Some(u) => {
                proof {
                    assert(fr0.contains(u@)) by {
                        assert(fr0[0] == u@);
                    }
                    crate::state::lemma_dequeue_exclusive(fr0);
                }
                let row = find_row(pages, &u);
                let splittable = base_is_splittable(u.as_str());
                match row {
                    Some(i) if splittable => {
                        let ghost rowi = i as int;
                        let ghost rest = state.frontier_view();
                        let ghost hrefs_v = views_of(pages@[rowi].1@);
                        proof {
                            lemma_resume_no_refetch(fr0, vis0, hrefs_v);
                        }
                        state.mark_visited(u.clone());
                        apply_links(state, u.as_str(), &pages[i].1);
                        proof {
                            lemma_enqueue_links_targets(rest, vis0.insert(u@), u@, hrefs_v);
                            lemma_enqueue_links_monotone(rest, vis0.insert(u@), u@, hrefs_v);
                            lemma_enqueue_links_complete(rest, vis0.insert(u@), u@, hrefs_v);
                            lemma_row_targets_in_table(pages@, rowi);
                            assert(pages@[rowi].0@ == u@);
                            assert(rest == fr0.drop_first());
                            assert(state.visited_view() == vis0.insert(u@));
                            assert(state.frontier_view() == spec_enqueue_links(
                                rest,
                                vis0.insert(u@),
                                u@,
                                hrefs_v,
                            ));
                            assert(frontier_fresh(state.frontier_view(), state.visited_view()));
                            assert forall|x: Seq<char>| #[trigger]
                                state.frontier_view().contains(x) implies uni.contains(x) by {
                                assert(spec_enqueue_links(
                                    rest,
                                    vis0.insert(u@),
                                    u@,
                                    hrefs_v,
                                ).contains(x));
                                if rest.contains(x) {
                                    let j = choose|j: int| 0 <= j < rest.len() && rest[j] == x;
                                    assert(fr0[j + 1] == x);
                                    assert(fr0.contains(x));
                                } else {
                                    assert(page_targets(u@, hrefs_v).contains(x));
                                    assert(page_targets(
                                        pages@[rowi].0@,
                                        views_of(pages@[rowi].1@),
                                    ).contains(x));
                                    assert(table_targets(pages@).contains(x));
                                    let all = old(state).frontier_view() + old(
                                        state,
                                    ).visited_seq() + table_targets(pages@);
                                    let j = choose|j: int|
                                        0 <= j < table_targets(pages@).len() && table_targets(
                                            pages@,
                                        )[j] == x;
                                    assert(all[old(state).frontier_view().len() + old(
                                        state,
                                    ).visited_seq().len() + j] == x);
                                }
                            }
                            assert forall|x: Seq<char>| #[trigger]
                                state.visited_view().contains(x) implies uni.contains(x) by {
                                if vis0.contains(x) {
                                } else {
                                    assert(x == u@);
                                    assert(fr0.contains(u@));
                                }
                            }
                            assert forall|x: Seq<char>|
                                old(state).visited_view().contains(x) implies #[trigger]
                                state.visited_view().contains(x) by {
                                assert(vis0.contains(x));
                            }
                            assert forall|t: Seq<char>| #[trigger]
                                old(state).frontier_view().contains(t) implies state
                                .frontier_view().contains(t) || state.visited_view().contains(t)
                                || !fetchable(pages@, t) by {
                                if fr0.contains(t) {
                                    let j = choose|j: int| 0 <= j < fr0.len() && fr0[j] == t;
                                    if j == 0 {
                                        assert(t == u@);
                                    } else {
                                        assert(rest[j - 1] == t);
                                        assert(rest.contains(t));
                                    }
                                }
                            }
                            assert forall|pi: int, t: Seq<char>|
                                #![trigger page_targets(pages@[pi].0@, views_of(pages@[pi].1@)).contains(t)]
                                0 <= pi < pages@.len() && state.visited_view().contains(
                                    pages@[pi].0@,
                                ) && !old(state).visited_view().contains(pages@[pi].0@)
                                    && crate::norm::base_ok(pages@[pi].0@) && page_targets(
                                    pages@[pi].0@,
                                    views_of(pages@[pi].1@),
                                ).contains(t) implies state.frontier_view().contains(t)
                                || state.visited_view().contains(t) || !fetchable(pages@, t) by {
                                if pages@[pi].0@ == u@ {
                                    if pi != rowi {
                                        if pi < rowi {
                                            assert(pages@[pi].0@ != pages@[rowi].0@);
                                        } else {
                                            assert(pages@[rowi].0@ != pages@[pi].0@);
                                        }
                                    }
                                    assert(page_targets(u@, hrefs_v).contains(t));
                                } else {
                                    assert(vis0.contains(pages@[pi].0@));
                                    if fr0.contains(t) {
                                        let j = choose|j: int|
                                            0 <= j < fr0.len() && fr0[j] == t;
                                        if j == 0 {
                                            assert(t == u@);
                                        } else {
                                            assert(rest[j - 1] == t);
                                            assert(rest.contains(t));
                                        }
                                    }
                                }
                            }
                            assert(!vis0.contains(u@));
                            assert(state.visited_view().len() == vis0.len() + 1);
                            assert(state.visited_view().subset_of(uni));
                            vstd::set_lib::lemma_len_subset(state.visited_view(), uni);
                        }
                    },
                    _ => {
                        // No row: the fetch fails and the URL is dropped,
                        // neither retried nor marked visited. A URL that
                        // cannot serve as a base is dropped the same way.
                        proof {
                            assert(state.visited_view() == vis0);
                            assert(state.frontier_view() == fr0.drop_first());
                            assert(!fetchable(pages@, u@)) by {
                                match row {
                                    Some(k) => {
                                        assert(!crate::norm::base_ok(u@));
                                    },
                                    None => {},
                                }
                            }
                            assert forall|x: Seq<char>| #[trigger]
                                state.frontier_view().contains(x) implies uni.contains(x) by {
                                let j = choose|j: int|
                                    0 <= j < state.frontier_view().len()
                                        && state.frontier_view()[j] == x;
                                assert(fr0[j + 1] == x);
                                assert(fr0.contains(x));
                            }
                            assert(frontier_fresh(state.frontier_view(), state.visited_view()))
                                by {
                                assert forall|k: int|
                                    0 <= k < state.frontier_view().len() implies !state
                                    .visited_view().contains(state.frontier_view()[k]) by {
                                    assert(state.frontier_view()[k] == fr0[k + 1]);
                                    assert(!vis0.contains(fr0[k + 1]));
                                }
                            }
                            assert forall|t: Seq<char>| #[trigger]
                                old(state).frontier_view().contains(t) implies state
                                .frontier_view().contains(t) || state.visited_view().contains(t)
                                || !fetchable(pages@, t) by {
                                if fr0.contains(t) && !vis0.contains(t) && fetchable(pages@, t) {
                                    let j = choose|j: int| 0 <= j < fr0.len() && fr0[j] == t;
                                    if j == 0 {
                                        assert(t == u@);
                                        assert(false);
                                    } else {
                                        assert(state.frontier_view()[j - 1] == t);
                                    }
                                }
                            }
                            assert forall|pi: int, t: Seq<char>|
                                #![trigger page_targets(pages@[pi].0@, views_of(pages@[pi].1@)).contains(t)]
                                0 <= pi < pages@.len() && state.visited_view().contains(
                                    pages@[pi].0@,
                                ) && !old(state).visited_view().contains(pages@[pi].0@)
                                    && crate::norm::base_ok(pages@[pi].0@) && page_targets(
                                    pages@[pi].0@,
                                    views_of(pages@[pi].1@),
                                ).contains(t) implies state.frontier_view().contains(t)
                                || state.visited_view().contains(t) || !fetchable(pages@, t) by {
                                assert(vis0.contains(pages@[pi].0@));
                                if fr0.contains(t) && !vis0.contains(t) && fetchable(pages@, t) {
                                    let j = choose|j: int| 0 <= j < fr0.len() && fr0[j] == t;
                                    if j == 0 {
                                        assert(t == u@);
                                        assert(false);
                                    } else {
                                        assert(state.frontier_view()[j - 1] == t);
                                    }
                                }
                            }
                        }
                    },
                }
            },
        }
    }
    proof {
        assert forall|t: Seq<char>| #[trigger]
            old(state).frontier_view().contains(t) && fetchable(pages@, t) implies state
            .visited_view().contains(t) by {
            assert(state.frontier_view().contains(t) || state.visited_view().contains(t)
                || !fetchable(pages@, t));
            if state.frontier_view().contains(t) {
                let j = choose|j: int|
                    0 <= j < state.frontier_view().len() && state.frontier_view()[j] == t;
            }
        }
        assert forall|pi: int, t: Seq<char>|
            #![trigger page_targets(pages@[pi].0@, views_of(pages@[pi].1@)).contains(t)]
            0 <= pi < pages@.len() && state.visited_view().contains(pages@[pi].0@) && !old(
                state,
            ).visited_view().contains(pages@[pi].0@) && crate::norm::base_ok(pages@[pi].0@)
                && page_targets(pages@[pi].0@, views_of(pages@[pi].1@)).contains(t) && fetchable(
                pages@,
                t,
            ) implies state.visited_view().contains(t) by {
            if state.frontier_view().contains(t) {
                let j = choose|j: int|
                    0 <= j < state.frontier_view().len() && state.frontier_view()[j] == t;
            }
        }
    }
}

} // verus!
