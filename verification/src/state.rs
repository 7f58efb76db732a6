//! The crawl state: the frontier work queue and the visited set, with the
//! no-duplicate discipline that governs what may enter the frontier.

use vstd::prelude::*;

verus! {

/// The views of the strings a vector holds.
pub open spec fn views_of(v: Seq<String>) -> Seq<Seq<char>> {
    v.map_values(|s: String| s@)
}

/// What `enqueueIfNew` does to the frontier: the URL goes to the tail unless
/// it is already in the frontier or in the visited set.
pub open spec fn spec_enqueue_if_new(
    fr: Seq<Seq<char>>,
    vis: Set<Seq<char>>,
    url: Seq<char>,
) -> Seq<Seq<char>> {
    if fr.contains(url) || vis.contains(url) {
        fr
    } else {
        fr.push(url)
    }
}

/// What `markVisited` does to the visited sequence: idempotent insertion at
/// the tail.
pub open spec fn spec_mark_visited(vis: Seq<Seq<char>>, url: Seq<char>) -> Seq<Seq<char>> {
    if vis.contains(url) {
        vis
    } else {
        vis.push(url)
    }
}

/// The frontier and the visited set as one persistable unit.
pub struct CrawlState {
    /// URLs awaiting a fetch, in discovery order, oldest first.
    pub frontier: Vec<String>,
    /// URLs already fetched (or otherwise closed off from re-queueing).
    pub visited: Vec<String>,
}

impl CrawlState {
    /// The frontier as a sequence of URL values, head first.
    pub open spec fn frontier_view(&self) -> Seq<Seq<char>> {
        views_of(self.frontier@)
    }

    /// The visited URLs in insertion order.
    pub open spec fn visited_seq(&self) -> Seq<Seq<char>> {
        views_of(self.visited@)
    }

    /// The visited URLs as a set: membership is all that matters.
    pub open spec fn visited_view(&self) -> Set<Seq<char>> {
        self.visited_seq().to_set()
    }

    /// Well-formedness: neither the frontier nor the visited record repeats
    /// a URL.
    pub open spec fn wf(&self) -> bool {
        &&& self.frontier_view().no_duplicates()
        &&& self.visited_seq().no_duplicates()
    }

    /// A fresh crawl: the frontier holds the seed alone, nothing is visited.
    pub fn init(seed: &str) -> (r: CrawlState)
        ensures
            r.frontier_view() =~= seq![seed@],
            r.visited_view() =~= Set::<Seq<char>>::empty(),
            r.visited_seq() =~= Seq::<Seq<char>>::empty(),
            r.wf(),
    {
        let mut frontier: Vec<String> = Vec::new();
        frontier.push(String::from_str(seed));
        let r = CrawlState { frontier, visited: Vec::new() };
        proof {
            assert(r.frontier_view() =~= seq![seed@]);
            assert(r.visited_seq() =~= Seq::<Seq<char>>::empty());
        }
        r
    }

    /// A state with nothing queued and nothing visited, the fallback when no
    /// checkpoint can be read.
    pub fn empty() -> (r: CrawlState)
        ensures
            r.frontier_view() =~= Seq::<Seq<char>>::empty(),
            r.visited_view() =~= Set::<Seq<char>>::empty(),
            r.visited_seq() =~= Seq::<Seq<char>>::empty(),
            r.wf(),
    {
        let r = CrawlState { frontier: Vec::new(), visited: Vec::new() };
        proof {
            assert(r.frontier_view() =~= Seq::<Seq<char>>::empty());
            assert(r.visited_seq() =~= Seq::<Seq<char>>::empty());
        }
        r
    }

    /// How many URLs await a fetch.
    pub fn size(&self) -> (r: usize)
        ensures
            r == self.frontier_view().len(),
    {
        self.frontier.len()
    }

    /// Whether the frontier is drained.
    pub fn is_empty(&self) -> (r: bool)
        ensures
            r == (self.frontier_view().len() == 0),
    {
        self.frontier.len() == 0
    }

    /// Whether `url` is in the frontier.
    pub fn frontier_contains(&self, url: &String) -> (r: bool)
        ensures
            r == self.frontier_view().contains(url@),
    {
        vec_contains(&self.frontier, url)
    }

    /// Whether `url` is in the visited set.
    pub fn visited_contains(&self, url: &String) -> (r: bool)
        ensures
            r == self.visited_view().contains(url@),
    {
        vec_contains(&self.visited, url)
    }

    /// Append `url` to the frontier tail unless it is already queued or
    /// visited; otherwise leave the state as it is.
    pub fn enqueue_if_new(&mut self, url: String)
        requires
            old(self).wf(),
        ensures
            final(self).wf(),
            final(self).frontier_view() == spec_enqueue_if_new(
                old(self).frontier_view(),
                old(self).visited_view(),
                url@,
            ),
            final(self).visited_seq() == old(self).visited_seq(),
    {
        let queued = vec_contains(&self.frontier, &url);
        let seen = vec_contains(&self.visited, &url);
        if !queued && !seen {
            let ghost prev = self.frontier_view();
            self.frontier.push(url);
            proof {
                assert(self.frontier_view() =~= prev.push(url@));
                lemma_push_keeps_no_duplicates(prev, url@);
            }
        }
    }

    /// Remove and return the head of the frontier, or report emptiness.
    pub fn dequeue(&mut self) -> (r: Option<String>)
        requires
            old(self).wf(),
        ensures
            final(self).wf(),
            final(self).visited_seq() == old(self).visited_seq(),
            old(self).frontier_view().len() == 0 ==> r is None && final(self).frontier_view()
                == old(self).frontier_view(),
            old(self).frontier_view().len() > 0 ==> match r {
                Some(u) => u@ == old(self).frontier_view()[0] && final(self).frontier_view()
                    == old(self).frontier_view().drop_first(),
                None => false,
            },
    {
        if self.frontier.len() == 0 {
            None
        } else {
            let u = self.frontier.remove(0);
            proof {
                assert(self.frontier_view() =~= old(self).frontier_view().drop_first());
            }
            Some(u)
        }
    }

    /// Record that `url` has been fetched. Idempotent: the visited set only
    /// ever gains the URL once.
    pub fn mark_visited(&mut self, url: String)
        requires
            old(self).wf(),
        ensures
            final(self).wf(),
            final(self).frontier_view() == old(self).frontier_view(),
            final(self).visited_seq() == spec_mark_visited(old(self).visited_seq(), url@),
            final(self).visited_view() =~= old(self).visited_view().insert(url@),
    {
        let seen = vec_contains(&self.visited, &url);
        if !seen {
            let ghost prev = self.visited_seq();
            self.visited.push(url);
            proof {
                assert(self.visited_seq() =~= prev.push(url@));
                lemma_push_keeps_no_duplicates(prev, url@);
                prev.lemma_push_to_set_commute(url@);
            }
        }
    }
}

/// Whether some string of `v` has the same characters as `url`.
fn vec_contains(v: &Vec<String>, url: &String) -> (r: bool)
    ensures
        r == views_of(v@).contains(url@),
{
    let mut i: usize = 0;
    while i < v.len()
        invariant
            0 <= i <= v@.len(),
            forall|j: int| 0 <= j < i ==> views_of(v@)[j] != url@,
        decreases v@.len() - i,
    {
        if v[i] == *url {
            proof {
                assert(views_of(v@)[i as int] == url@);
            }
            return true;
        }
        i = i + 1;
    }
    false
}

/// Pushing an element a sequence does not hold keeps it duplicate-free.
proof fn lemma_push_keeps_no_duplicates(s: Seq<Seq<char>>, x: Seq<char>)
    requires
        s.no_duplicates(),
        !s.contains(x),
    ensures
        s.push(x).no_duplicates(),
{
    let t = s.push(x);
    assert forall|i: int, j: int|
        0 <= i < t.len() && 0 <= j < t.len() && i != j implies t[i] != t[j] by {
        if i < s.len() && j < s.len() {
            assert(t[i] == s[i] && t[j] == s[j]);
        } else if i == s.len() {
            assert(t[i] == x && t[j] == s[j]);
            if t[j] == x {
                assert(s.contains(x));
            }
        } else {
            assert(t[j] == x && t[i] == s[i]);
            if t[i] == x {
                assert(s.contains(x));
            }
        }
    }
}

/// *No duplicate enqueue.* However `enqueueIfNew` calls are interleaved with
/// `markVisited` calls, the frontier never comes to hold the same URL twice,
/// and a URL already in the visited set is never (re)enqueued: the step
/// leaves the frontier unchanged.
pub proof fn lemma_no_duplicate_enqueue(fr: Seq<Seq<char>>, vis: Set<Seq<char>>, url: Seq<char>)
    requires
        fr.no_duplicates(),
    ensures
        spec_enqueue_if_new(fr, vis, url).no_duplicates(),
        vis.contains(url) ==> spec_enqueue_if_new(fr, vis, url) == fr,
        fr.contains(url) ==> spec_enqueue_if_new(fr, vis, url) == fr,
{
    if !fr.contains(url) && !vis.contains(url) {
        lemma_push_keeps_no_duplicates(fr, url);
    }
}

/// *Pop exclusivity.* A dequeue hands out the head of a duplicate-free
/// frontier and removes it: no later dequeue can yield the same URL until it
/// is enqueued anew, so each frontier element is handed to exactly one
/// caller.
pub proof fn lemma_dequeue_exclusive(fr: Seq<Seq<char>>)
    requires
        fr.no_duplicates(),
        fr.len() > 0,
    ensures
        !fr.drop_first().contains(fr[0]),
{
    if fr.drop_first().contains(fr[0]) {
        let j = choose|j: int| 0 <= j < fr.drop_first().len() && fr.drop_first()[j] == fr[0];
        assert(fr[j + 1] == fr[0]);
    }
}

} // verus!
