//! The crawl frontier: a FIFO queue of URLs to fetch, the set of URLs that
//! were handled, a page cap, and the pages read so far.
//!
//! The fetching itself happens outside: `next_url` hands out the next URL
//! to fetch, and `record_page` or `record_failure` reports what came of it.

use vstd::prelude::*;
use crate::dom::Document;
use crate::links::{distinct, extract_internal_links, links_of};
use crate::page::{lemma_page_sections_filled, name_in, page_of, scrape_page, Page, PageView, TagRules};
use crate::text::strings_view;

verus! {

/// The output of a crawl: the pages read, in the order they were read.
#[derive(Debug, Clone, PartialEq, Eq)]
pub struct ScrapedData {
    pub pages: Vec<Page>,
}

pub open spec fn pages_view(v: Seq<Page>) -> Seq<PageView> {
    v.map_values(|p: Page| p@)
}

/// The state of one crawl.
pub struct Frontier {
    /// Every URL ever queued; those from `head` on are still pending.
    pub queue: Vec<String>,
    pub head: usize,
    /// The URLs whose fetch was reported, each once.
    pub visited: Vec<String>,
    /// The URL handed out by `next_url` and not yet reported.
    pub current: Option<String>,
    pub max_pages: usize,
    pub pages_scraped: usize,
    pub data: ScrapedData,
    pub rules: TagRules,
    /// Every URL handed out for fetching, in order.
    pub fetched: Ghost<Seq<Seq<char>>>,
}

/// Whether every section of every page has content.
pub open spec fn all_sections_filled(pages: Seq<PageView>) -> bool {
    forall|i: int, k: int| 0 <= i < pages.len() && 0 <= k < pages[i].sections.len()
        ==> #[trigger] pages[i].sections[k].content.len() > 0
}

/// The first position from `j` on whose URL is not in `visited`.
pub open spec fn first_fresh(q: Seq<Seq<char>>, visited: Seq<Seq<char>>, j: int) -> int
    decreases q.len() - j,
{
    if j >= q.len() {
        q.len() as int
    } else if visited.contains(q[j]) {
        first_fresh(q, visited, j + 1)
    } else {
        j
    }
}

/// The queue `q` after each of `links` that is neither visited nor pending
/// (at or after `head`) is appended, in order.
pub open spec fn enqueue(q: Seq<Seq<char>>, head: int, visited: Seq<Seq<char>>, links: Seq<Seq<char>>) -> Seq<Seq<char>>
    decreases links.len(),
{
    if links.len() == 0 {
        q
    } else {
        let q2 = enqueue(q, head, visited, links.drop_last());
        if visited.contains(links.last()) || q2.subrange(head, q2.len() as int).contains(links.last()) {
            q2
        } else {
            q2.push(links.last())
        }
    }
}

proof fn lemma_enqueue_grows(q: Seq<Seq<char>>, head: int, visited: Seq<Seq<char>>, links: Seq<Seq<char>>)
    ensures
        enqueue(q, head, visited, links).len() >= q.len(),
    decreases links.len(),
{
    if links.len() > 0 {
        lemma_enqueue_grows(q, head, visited, links.drop_last());
    }
}

/// Whether `u` is in `queue` at or after `head`.
fn pending_has(queue: &Vec<String>, head: usize, u: &String) -> (r: bool)
    requires
        head <= queue@.len(),
    ensures
        r == strings_view(queue@).subrange(head as int, queue@.len() as int).contains(u@),
{
    let ghost q = strings_view(queue@);
    let ghost pend = q.subrange(head as int, queue@.len() as int);
    let mut i: usize = head;
    while i < queue.len()
        invariant
            head <= i <= queue@.len(),
            q == strings_view(queue@),
            pend == q.subrange(head as int, queue@.len() as int),
            forall|k: int| head <= k < i ==> #[trigger] q[k] != u@,
        decreases queue@.len() - i,
    {
        if queue[i] == *u {
            assert(pend[i - head] == u@);
            return true;
        }
        i = i + 1;
    }
    proof {
        assert forall|k: int| 0 <= k < pend.len() implies pend[k] != u@ by {
            assert(pend[k] == q[k + head]);
        }
    }
    false
}

/// Appends to `queue` each of `links` that is neither in `visited` nor
/// pending at or after `head`.
fn enqueue_links(queue: &mut Vec<String>, head: usize, visited: &Vec<String>, links: &Vec<String>)
    requires
        head <= old(queue)@.len(),
    ensures
        strings_view(final(queue)@) == enqueue(strings_view(old(queue)@), head as int, strings_view(visited@), strings_view(links@)),
{
    let ghost q0 = strings_view(queue@);
    let ghost vis = strings_view(visited@);
    let ghost ls = strings_view(links@);
    let mut i: usize = 0;
    while i < links.len()
        invariant
            i <= links@.len(),
            ls == strings_view(links@),
            vis == strings_view(visited@),
            head <= queue@.len(),
            strings_view(queue@) == enqueue(q0, head as int, vis, ls.take(i as int)),
        decreases links@.len() - i,
    {
        proof {
            lemma_enqueue_grows(q0, head as int, vis, ls.take(i as int));
            assert(ls.take(i + 1).drop_last() =~= ls.take(i as int));
            assert(ls.take(i + 1).last() == links@[i as int]@);
        }
        if !name_in(&links[i], visited) && !pending_has(queue, head, &links[i]) {
            queue.push(links[i].clone());
            assert(strings_view(queue@) =~= enqueue(q0, head as int, vis, ls.take(i as int)).push(ls[i as int]));
        }
        i = i + 1;
    }
    assert(ls.take(links@.len() as int) =~= ls);
}

impl Frontier {
    pub open spec fn queue_view(&self) -> Seq<Seq<char>> {
        strings_view(self.queue@)
    }

    pub open spec fn visited_view(&self) -> Seq<Seq<char>> {
        strings_view(self.visited@)
    }

    pub open spec fn current_view(&self) -> Option<Seq<char>> {
        match self.current {
            Some(c) => Some(c@),
            None => None,
        }
    }

    pub open spec fn pages(&self) -> Seq<PageView> {
        pages_view(self.data.pages@)
    }

    /// The frontier's invariant.
    pub open spec fn wf(&self) -> bool {
        &&& self.head <= self.queue@.len()
        &&& self.pages_scraped == self.data.pages@.len()
        &&& self.pages_scraped <= self.max_pages
        &&& self.current is Some ==> self.pages_scraped < self.max_pages
            && !self.visited_view().contains(self.current_view()->0)
            && self.fetched@.contains(self.current_view()->0)
        &&& self.fetched@.no_duplicates()
        &&& forall|u: Seq<char>| #[trigger] self.visited_view().contains(u) ==> self.fetched@.contains(u)
        &&& forall|u: Seq<char>| #[trigger] self.fetched@.contains(u) ==> self.visited_view().contains(u)
            || self.current_view() == Some(u)
        &&& all_sections_filled(self.pages())
    }

    /// A crawl that starts at `seed` and reads at most `max_pages` pages.
    pub fn new(seed: String, max_pages: usize) -> (r: Frontier)
        ensures
            r.wf(),
            r.queue_view() == seq![seed@],
            r.head == 0,
            r.visited_view() == Seq::<Seq<char>>::empty(),
            r.current is None,
            r.max_pages == max_pages,
            r.pages() == Seq::<PageView>::empty(),
            r.fetched@ == Seq::<Seq<char>>::empty(),
    {
        let r = Frontier {
            queue: vec![seed],
            head: 0,
            visited: Vec::new(),
            current: None,
            max_pages,
            pages_scraped: 0,
            data: ScrapedData { pages: Vec::new() },
            rules: TagRules::standard(),
            fetched: Ghost(Seq::empty()),
        };
        assert(r.queue_view() =~= seq![seed@]);
        assert(r.visited_view() =~= Seq::<Seq<char>>::empty());
        assert(r.pages() =~= Seq::<PageView>::empty());
        r
    }

    /// The number of pages read so far.
    pub fn pages_scraped(&self) -> (r: usize)
        ensures
            r == self.pages_scraped,
    {
        self.pages_scraped
    }

    /// The pages read, in order.
    pub fn into_data(self) -> (r: ScrapedData)
        ensures
            r == self.data,
    {
        self.data
    }

    /// Takes the next URL to fetch off the queue: none where the queue is
    /// empty, where the page cap is reached (the popped entry is dropped),
    /// or where only visited URLs remain (they are dropped).
    pub fn next_url(&mut self) -> (r: Option<String>)
        requires
            old(self).wf(),
            old(self).current is None,
        ensures
            final(self).wf(),
            final(self).queue == old(self).queue,
            final(self).visited == old(self).visited,
            final(self).data == old(self).data,
            final(self).max_pages == old(self).max_pages,
            final(self).pages_scraped == old(self).pages_scraped,
            final(self).rules == old(self).rules,
            old(self).head >= old(self).queue@.len() ==> r is None && final(self).head == old(self).head,
            old(self).head < old(self).queue@.len() && old(self).pages_scraped >= old(self).max_pages
                ==> r is None && final(self).head == old(self).head + 1,
            old(self).head < old(self).queue@.len() && old(self).pages_scraped < old(self).max_pages ==> {
                let k = first_fresh(old(self).queue_view(), old(self).visited_view(), old(self).head as int);
                if k == old(self).queue@.len() {
                    r is None && final(self).head == k
                } else {
                    r is Some && r->0@ == old(self).queue_view()[k] && final(self).head == k + 1
                }
            },
            r is None ==> final(self).current is None && final(self).fetched == old(self).fetched,
            r is Some ==> final(self).current == r && final(self).fetched@ == old(self).fetched@.push(r->0@),
    {
        if self.head >= self.queue.len() {
            return None;
        }
        if self.pages_scraped >= self.max_pages {
            self.head = self.head + 1;
            assert(self.visited_view() == old(self).visited_view());
            assert(self.pages() == old(self).pages());
            return None;
        }
        let ghost q = self.queue_view();
        let ghost vis = self.visited_view();
        let ghost h0 = self.head as int;
        while self.head < self.queue.len()
            invariant
                self.wf(),
                self.current is None,
                q == self.queue_view(),
                vis == self.visited_view(),
                h0 <= self.head <= q.len(),
                h0 == old(self).head as int,
                h0 < q.len(),
                first_fresh(q, vis, h0) == first_fresh(q, vis, self.head as int),
                self.pages_scraped < self.max_pages,
                self.queue == old(self).queue,
                self.visited == old(self).visited,
                self.data == old(self).data,
                self.max_pages == old(self).max_pages,
                self.pages_scraped == old(self).pages_scraped,
                self.rules == old(self).rules,
                self.fetched == old(self).fetched,
            decreases q.len() - self.head,
        {
            let i = self.head;
            self.head = i + 1;
            assert(q[i as int] == self.queue@[i as int]@);
            assert(self.pages() == old(self).pages());
            if !name_in(&self.queue[i], &self.visited) {
                let u = self.queue[i].clone();
                let ghost old_fetched = self.fetched@;
                assert(self.fetched@.push(u@)[self.fetched@.len() as int] == u@);
                proof {
                    assert(!old_fetched.contains(u@));
                    self.fetched@ = old_fetched.push(u@);
                }
                self.current = Some(u.clone());
                proof {
                    assert forall|w: Seq<char>| #[trigger] self.fetched@.contains(w) implies self.visited_view().contains(w)
                        || self.current_view() == Some(w) by {
                        if w != u@ {
                            let t = choose|t: int| 0 <= t < self.fetched@.len() && self.fetched@[t] == w;
                            if t < old_fetched.len() {
                                assert(old_fetched[t] == w);
                                assert(old_fetched.contains(w));
                            }
                        }
                    }
                    assert forall|w: Seq<char>| #[trigger] self.visited_view().contains(w) implies self.fetched@.contains(w) by {
                        assert(old_fetched.contains(w));
                        let t = choose|t: int| 0 <= t < old_fetched.len() && old_fetched[t] == w;
                        assert(self.fetched@[t] == w);
                    }
                    assert(self.pages() == old(self).pages());
                    assert forall|a: int, b: int| 0 <= a < b < self.fetched@.len() implies self.fetched@[a] != self.fetched@[b] by {
                        if b == old_fetched.len() {
                            assert(old_fetched.contains(old_fetched[a]));
                        }
                    }
                }
                return Some(u);
            }
        }
        None
    }

    /// Reports that the fetch of the current URL failed: it counts as
    /// visited, and nothing else changes.
    pub fn record_failure(&mut self)
        requires
            old(self).wf(),
            old(self).current is Some,
        ensures
            final(self).wf(),
            final(self).visited_view() == old(self).visited_view().push(old(self).current_view()->0),
            final(self).current is None,
            final(self).queue == old(self).queue,
            final(self).head == old(self).head,
            final(self).data == old(self).data,
            final(self).max_pages == old(self).max_pages,
            final(self).pages_scraped == old(self).pages_scraped,
            final(self).rules == old(self).rules,
            final(self).fetched == old(self).fetched,
    {
        let cur = match &self.current {
            Some(c) => c.clone(),
            None => String::new(),
        };
        self.current = None;
        self.mark_visited(cur);
    }

    /// Adds the URL that was current to `visited`.
    fn mark_visited(&mut self, cur: String)
        requires
            old(self).head <= old(self).queue@.len(),
            old(self).pages_scraped == old(self).data.pages@.len(),
            old(self).pages_scraped <= old(self).max_pages,
            old(self).current is None,
            old(self).fetched@.no_duplicates(),
            old(self).fetched@.contains(cur@),
            forall|u: Seq<char>| #[trigger] old(self).visited_view().contains(u) ==> old(self).fetched@.contains(u),
            forall|u: Seq<char>| #[trigger] old(self).fetched@.contains(u) ==> old(self).visited_view().contains(u)
                || u == cur@,
            all_sections_filled(old(self).pages()),
        ensures
            final(self).wf(),
            final(self).visited_view() == old(self).visited_view().push(cur@),
            final(self).current is None,
            final(self).queue == old(self).queue,
            final(self).head == old(self).head,
            final(self).data == old(self).data,
            final(self).max_pages == old(self).max_pages,
            final(self).pages_scraped == old(self).pages_scraped,
            final(self).rules == old(self).rules,
            final(self).fetched == old(self).fetched,
    {
        let ghost vis = self.visited_view();
        self.visited.push(cur);
        proof {
            let nv = self.visited_view();
            assert(nv =~= vis.push(cur@));
            assert forall|u: Seq<char>| #[trigger] nv.contains(u) implies self.fetched@.contains(u) by {
                let t = choose|t: int| 0 <= t < nv.len() && nv[t] == u;
                if t < vis.len() {
                    assert(vis[t] == u);
                    assert(vis.contains(u));
                }
            }
            assert forall|u: Seq<char>| #[trigger] self.fetched@.contains(u) implies nv.contains(u) by {
                if u == cur@ {
                    assert(nv[vis.len() as int] == u);
                } else {
                    let t = choose|t: int| 0 <= t < vis.len() && vis[t] == u;
                    assert(nv[t] == u);
                }
            }
            assert(self.pages() == old(self).pages());
        }
    }

    /// Reports that the current URL was fetched and parsed into `doc`: its
    /// page is appended to the output, the links it holds that are neither
    /// visited nor pending are queued, and it counts as visited.
    pub fn record_page(&mut self, doc: &Document)
        requires
            old(self).wf(),
            old(self).current is Some,
        ensures
            final(self).wf(),
            final(self).pages() == old(self).pages().push(
                page_of(doc@, old(self).rules@, old(self).current_view()->0),
            ),
            final(self).pages_scraped == old(self).pages_scraped + 1,
            final(self).queue_view() == enqueue(
                old(self).queue_view(),
                old(self).head as int,
                old(self).visited_view(),
                distinct(links_of(doc@, old(self).current_view()->0)),
            ),
            final(self).visited_view() == old(self).visited_view().push(old(self).current_view()->0),
            final(self).current is None,
            final(self).head == old(self).head,
            final(self).max_pages == old(self).max_pages,
            final(self).rules == old(self).rules,
            final(self).fetched == old(self).fetched,
    {
        let cur = match &self.current {
            Some(c) => c.clone(),
            None => String::new(),
        };
        let ghost pages0 = self.pages();
        let page = scrape_page(doc, &self.rules, cur.as_str());
        proof {
            lemma_page_sections_filled(doc@, self.rules@, cur@);
        }
        self.data.pages.push(page);
        self.pages_scraped = self.pages_scraped + 1;
        let links = extract_internal_links(doc, cur.as_str());
        enqueue_links(&mut self.queue, self.head, &self.visited, &links);
        proof {
            let ps = self.pages();
            assert(ps =~= pages0.push(page_of(doc@, self.rules@, cur@)));
            assert forall|i: int, k: int| 0 <= i < ps.len() && 0 <= k < ps[i].sections.len()
                implies #[trigger] ps[i].sections[k].content.len() > 0 by {
                if i < pages0.len() {
                    assert(ps[i] == pages0[i]);
                }
            }
            lemma_enqueue_grows(old(self).queue_view(), self.head as int, old(self).visited_view(), strings_view(links@));
        }
        self.current = None;
        self.mark_visited(cur);
    }
}

/// Every URL in `visited` was handed out for fetching exactly once.
pub proof fn lemma_visited_fetched_once(f: &Frontier)
    requires
        f.wf(),
    ensures
        forall|u: Seq<char>| #[trigger] f.visited_view().contains(u) ==> f.fetched@.contains(u),
        forall|i: int, j: int| 0 <= i < f.fetched@.len() && 0 <= j < f.fetched@.len() && f.fetched@[i] == f.fetched@[j]
            ==> i == j,
{
}

/// The page count never exceeds the cap and always equals the number of
/// pages in the output.
pub proof fn lemma_page_cap(f: &Frontier)
    requires
        f.wf(),
    ensures
        f.pages_scraped <= f.max_pages,
        f.pages_scraped == f.pages().len(),
{
}

} // verus!
