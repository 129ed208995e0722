use std::collections::VecDeque;
use crate::links::href_views;
use vstd::prelude::*;

verus! {

/// The views of a sequence of owned strings.
pub open spec fn string_views(v: Seq<String>) -> Seq<Seq<char>> {
    v.map_values(|s: String| s@)
}

/// Offering one candidate link to a seen list: it is appended unless it is
/// already there.
pub open spec fn offer_one(seen: Seq<Seq<char>>, url: Seq<char>) -> Seq<Seq<char>> {
    if seen.contains(url) {
        seen
    } else {
        seen.push(url)
    }
}

/// Offering a page's links, in the order given, to a seen list; anchors
/// without a link are passed over.
pub open spec fn offer_all(seen: Seq<Seq<char>>, links: Seq<Option<Seq<char>>>) -> Seq<Seq<char>>
    decreases links.len(),
{
    if links.len() == 0 {
        seen
    } else {
        let before = offer_all(seen, links.drop_last());
        match links.last() {
            Some(u) => offer_one(before, u),
            None => before,
        }
    }
}

/// Link propagation: offering a page's links to a seen list without
/// repeats leaves every link of the page in it exactly once, keeps what was
/// there in front, and appends nothing that is not one of the links.
pub proof fn lemma_links_offered_once(seen: Seq<Seq<char>>, links: Seq<Option<Seq<char>>>)
    requires
        seen.no_duplicates(),
    ensures
        offer_all(seen, links).no_duplicates(),
        offer_all(seen, links).len() >= seen.len(),
        offer_all(seen, links).take(seen.len() as int) == seen,
        forall|i: int|
            0 <= i < links.len() && (#[trigger] links[i]) is Some ==> offer_all(seen, links).contains(
                links[i]->Some_0,
            ),
        forall|j: int|
            seen.len() <= j < offer_all(seen, links).len() ==> links.contains(
                Some(#[trigger] offer_all(seen, links)[j]),
            ),
    decreases links.len(),
{
    let r = offer_all(seen, links);
    if links.len() > 0 {
        let init = links.drop_last();
        lemma_links_offered_once(seen, init);
        let before = offer_all(seen, init);
        assert forall|i: int|
            0 <= i < links.len() && (#[trigger] links[i]) is Some implies r.contains(
                links[i]->Some_0,
            ) by {
            if i < init.len() {
                assert(init[i] == links[i]);
                let k = choose|k: int| 0 <= k < before.len() && before[k] == links[i]->Some_0;
                assert(r[k] == before[k]);
            } else {
                assert(r[r.len() - 1] == links[i]->Some_0 || before.contains(links[i]->Some_0));
            }
        }
        assert forall|j: int| seen.len() <= j < r.len() implies links.contains(Some(#[trigger] r[j])) by {
            if j < before.len() {
                assert(r[j] == before[j]);
                let k = choose|k: int| 0 <= k < init.len() && init[k] == Some(before[j]);
                assert(links[k] == init[k]);
            } else {
                assert(links[links.len() - 1] == Some(r[j]));
            }
        }
        assert(r.take(seen.len() as int) =~= seen) by {
            assert forall|k: int| 0 <= k < seen.len() implies r[k] == seen[k] by {
                assert(before.take(seen.len() as int)[k] == seen[k]);
            }
        }
    } else {
        assert(r.take(seen.len() as int) =~= seen);
    }
}

/// The work queue of a crawl: URLs not yet dispatched, in the order they
/// were first offered, and every URL that was ever offered.
///
/// Each distinct URL enters the seen list, and the pending queue with it,
/// exactly once; the seen list is the URLs already taken followed by the
/// pending ones.
pub struct Frontier {
    queue: VecDeque<String>,
    seen: Vec<String>,
    taken: Ghost<Seq<Seq<char>>>,
}

impl Frontier {
    /// The URLs waiting to be dispatched, oldest first.
    pub closed spec fn pending(&self) -> Seq<Seq<char>> {
        string_views(self.queue@)
    }

    /// Every URL ever offered and accepted, in the order of acceptance.
    pub closed spec fn seen(&self) -> Seq<Seq<char>> {
        string_views(self.seen@)
    }

    /// The URLs already taken from the queue, in the order they were taken.
    pub closed spec fn taken(&self) -> Seq<Seq<char>> {
        self.taken@
    }

    pub open spec fn wf(&self) -> bool {
        &&& self.seen().no_duplicates()
        &&& self.seen() == self.taken() + self.pending()
    }

    /// An empty frontier.
    pub fn new() -> (r: Frontier)
        ensures
            r.wf(),
            r.seen() == Seq::<Seq<char>>::empty(),
            r.pending() == Seq::<Seq<char>>::empty(),
            r.taken() == Seq::<Seq<char>>::empty(),
    {
        let r = Frontier { queue: VecDeque::new(), seen: Vec::new(), taken: Ghost(Seq::empty()) };
        assert(r.seen() =~= Seq::<Seq<char>>::empty());
        assert(r.pending() =~= Seq::<Seq<char>>::empty());
        r
    }

    /// Whether `url` was ever accepted.
    pub fn has_seen(&self, url: &String) -> (r: bool)
        ensures
            r == self.seen().contains(url@),
    {
        let mut i: usize = 0;
        while i < self.seen.len()
            invariant
                i <= self.seen@.len(),
                forall|j: int| 0 <= j < i ==> self.seen()[j] != url@,
            decreases self.seen@.len() - i,
        {
            if self.seen[i] == *url {
                assert(self.seen()[i as int] == url@);
                return true;
            }
            i = i + 1;
        }
        false
    }

    /// Offers a URL: unless it was seen before, it enters the seen list and
    /// the end of the pending queue. Returns whether it was accepted.
    pub fn offer(&mut self, url: &str) -> (added: bool)
        requires
            old(self).wf(),
        ensures
            final(self).wf(),
            added == !old(self).seen().contains(url@),
            final(self).seen() == offer_one(old(self).seen(), url@),
            final(self).pending() == (if added {
                old(self).pending().push(url@)
            } else {
                old(self).pending()
            }),
            final(self).taken() == old(self).taken(),
    {
        let owned = url.to_owned();
        if self.has_seen(&owned) {
            return false;
        }
        let copy = owned.clone();
        self.seen.push(owned);
        self.queue.push_back(copy);
        assert(self.seen() =~= old(self).seen().push(url@));
        assert(self.pending() =~= old(self).pending().push(url@));
        assert(self.seen() =~= self.taken() + self.pending());
        true
    }

    /// Removes and returns the oldest pending URL.
    pub fn take_next(&mut self) -> (r: Option<String>)
        requires
            old(self).wf(),
        ensures
            final(self).wf(),
            final(self).seen() == old(self).seen(),
            old(self).pending().len() == 0 ==> r.is_none() && final(self).pending() == old(
                self,
            ).pending() && final(self).taken() == old(self).taken(),
            old(self).pending().len() > 0 ==> r.is_some() && r.unwrap()@ == old(self).pending()[0]
                && final(self).pending() == old(self).pending().drop_first() && final(self).taken()
                == old(self).taken().push(old(self).pending()[0]),
    {
        let r = self.queue.pop_front();
        match &r {
            Some(u) => {
                let ghost first = u@;
                self.taken = Ghost(self.taken@.push(first));
                assert(self.pending() =~= old(self).pending().drop_first());
                assert(self.seen() =~= self.taken() + self.pending());
            },
            None => {},
        }
        r
    }

    /// Offers each link of `hrefs` in turn, skipping the absent ones.
    pub fn offer_links(&mut self, hrefs: &Vec<Option<String>>)
        requires
            old(self).wf(),
        ensures
            final(self).wf(),
            final(self).seen() == offer_all(old(self).seen(), href_views(hrefs@)),
            final(self).taken() == old(self).taken(),
            final(self).pending() == old(self).pending() + final(self).seen().skip(
                old(self).seen().len() as int,
            ),
    {
        let ghost links = href_views(hrefs@);
        let mut i: usize = 0;
        while i < hrefs.len()
            invariant
                self.wf(),
                i <= hrefs@.len(),
                links == href_views(hrefs@),
                self.seen() == offer_all(old(self).seen(), links.take(i as int)),
                self.taken() == old(self).taken(),
                self.seen().len() >= old(self).seen().len(),
                self.seen().take(old(self).seen().len() as int) == old(self).seen(),
                self.pending() == old(self).pending() + self.seen().skip(
                    old(self).seen().len() as int,
                ),
            decreases hrefs@.len() - i,
        {
            let ghost before = self.seen();
            let ghost pending_before = self.pending();
            assert(links.take(i + 1).drop_last() =~= links.take(i as int));
            match &hrefs[i] {
                Some(link) => {
                    assert(links.take(i + 1).last() == Some(link@));
                    let added = self.offer(link.as_str());
                    if added {
                        assert(self.seen().skip(old(self).seen().len() as int) =~= before.skip(
                            old(self).seen().len() as int,
                        ).push(link@));
                    }
                },
                None => {
                    assert(links.take(i + 1).last() == None::<Seq<char>>);
                },
            }
            assert(self.seen().take(old(self).seen().len() as int) =~= old(self).seen());
            assert(self.pending() =~= old(self).pending() + self.seen().skip(
                old(self).seen().len() as int,
            ));
            i = i + 1;
        }
        assert(links.take(hrefs@.len() as int) =~= links);
    }

    /// The number of URLs waiting.
    pub fn len(&self) -> (r: usize)
        ensures
            r == self.pending().len(),
    {
        self.queue.len()
    }

    /// Whether no URL is waiting.
    pub fn is_empty(&self) -> (r: bool)
        ensures
            r == (self.pending().len() == 0),
    {
        self.queue.len() == 0
    }
}

} // verus!
