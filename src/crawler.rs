use crate::content::{body_policy, policy_of, BodyPolicy};
use crate::fetch::{create_request, get_method, request_builds, Message};
use crate::frontier::{offer_all, offer_one, Frontier};
use crate::links::{anchor_hrefs, extract_hrefs, href_views};
use vstd::prelude::*;

verus! {

/// What the crawler did with one URL it took from the frontier.
#[derive(Debug)]
pub enum Dispatched {
    /// The request was built: the caller sends it and later reports the
    /// outcome with `Crawler::complete`.
    Started { url: String, request: hyper::Request<hyper::Body> },
    /// No request could be built for the URL: this is the fetch's error result.
    Rejected { url: String, error: hyper::http::Error },
}

impl Dispatched {
    pub open spec fn url_view(&self) -> Seq<char> {
        match self {
            Dispatched::Started { url, .. } => url@,
            Dispatched::Rejected { url, .. } => url@,
        }
    }
}

/// The URLs of the started fetches among `ds`, in order.
pub open spec fn started_urls(ds: Seq<Dispatched>) -> Seq<Seq<char>>
    decreases ds.len(),
{
    if ds.len() == 0 {
        Seq::empty()
    } else {
        let before = started_urls(ds.drop_last());
        if ds.last() is Started {
            before.push(ds.last().url_view())
        } else {
            before
        }
    }
}

/// How a started fetch ended, as the transport reports it.
#[derive(Debug)]
pub enum Outcome {
    /// The connection, the request or the body read failed.
    Failed { reason: String },
    /// A response arrived: its status, its content-type header if any, and
    /// its body if it was read.
    Responded { status: u16, content_type: Option<Vec<u8>>, body: Option<Vec<u8>> },
}

/// A fetch that produced no response record.
#[derive(Debug)]
pub enum CrawlError {
    /// The transport failed for `url`, or reading the body did.
    Transport { url: String, reason: String },
}

pub open spec fn opt_vec_view(v: Option<Vec<u8>>) -> Option<Seq<u8>> {
    match v {
        Some(b) => Some(b@),
        None => None,
    }
}

/// The anchors whose links a completed fetch offers to the frontier: those of
/// the body of an HTML response, and none otherwise.
pub open spec fn links_found(outcome: Outcome) -> Seq<Option<Seq<char>>> {
    match outcome {
        Outcome::Responded { content_type, body, .. } => if policy_of(opt_vec_view(content_type))
            == BodyPolicy::Keep {
            match body {
                Some(b) => anchor_hrefs(b@),
                None => Seq::empty(),
            }
        } else {
            Seq::empty()
        },
        Outcome::Failed { .. } => Seq::empty(),
    }
}

/// The result that a completed fetch of `url` yields for `outcome`.
pub open spec fn yields(url: Seq<char>, outcome: Outcome, r: Result<Message, CrawlError>) -> bool {
    match outcome {
        Outcome::Failed { reason } => match r {
            Err(CrawlError::Transport { url: u, reason: m }) => u@ == url && m@ == reason@,
            _ => false,
        },
        Outcome::Responded { status, content_type, body } => {
            let policy = policy_of(opt_vec_view(content_type));
            match r {
                Ok(m) => m.url@ == url && m.method@
                    == get_method() && m.status == Some(status) && m.response_body == (if policy
                    == BodyPolicy::Keep {
                    body
                } else {
                    None
                }),
                _ => false,
            }
        },
    }
}

/// The crawl engine: a frontier of URLs and a pool of fetches in flight,
/// never more than `limit` of them.
pub struct Crawler {
    limit: usize,
    frontier: Frontier,
    in_flight: Vec<Message>,
    done: Ghost<nat>,
}

impl Crawler {
    /// The concurrency limit.
    pub closed spec fn concurrency(&self) -> nat {
        self.limit as nat
    }

    /// Every URL ever accepted into the frontier.
    pub closed spec fn seen(&self) -> Seq<Seq<char>> {
        self.frontier.seen()
    }

    /// The URLs waiting to be dispatched, oldest first.
    pub closed spec fn pending(&self) -> Seq<Seq<char>> {
        self.frontier.pending()
    }

    /// Every URL dispatched so far, in dispatch order.
    pub closed spec fn dispatched(&self) -> Seq<Seq<char>> {
        self.frontier.taken()
    }

    /// The URLs of the fetches in flight.
    pub closed spec fn in_flight(&self) -> Seq<Seq<char>> {
        self.in_flight@.map_values(|m: Message| m.url@)
    }

    /// The number of results yielded so far.
    pub closed spec fn results(&self) -> nat {
        self.done@
    }

    pub closed spec fn wf(&self) -> bool {
        &&& self.frontier.wf()
        &&& self.limit > 0
        &&& self.in_flight@.len() <= self.limit
        &&& self.in_flight().no_duplicates()
        &&& forall|i: int|
            0 <= i < self.in_flight@.len() ==> self.dispatched().contains(
                #[trigger] self.in_flight()[i],
            )
        &&& forall|i: int|
            0 <= i < self.in_flight@.len() ==> {
                &&& (#[trigger] self.in_flight@[i]).method@ == get_method()
                &&& self.in_flight@[i].status.is_none()
                &&& self.in_flight@[i].response_body.is_none()
            }
        &&& self.done@ + self.in_flight@.len() == self.dispatched().len()
    }

    /// How many URLs the next top-up takes from the frontier: the free room
    /// in the pool, or all that wait if fewer.
    pub open spec fn room(&self) -> nat {
        let free = self.concurrency() - self.in_flight().len();
        if free < self.pending().len() {
            free as nat
        } else {
            self.pending().len()
        }
    }

    /// What is left of a crawl whose URLs all lie in `universe`: two for
    /// each URL of it not yet dispatched, and one for each fetch in flight.
    /// Dispatching a URL lowers it by at least one, completing a fetch by one.
    pub open spec fn work_left(&self, universe: Set<Seq<char>>) -> int {
        2 * (universe.len() - self.dispatched().len()) + self.in_flight().len()
    }

    /// A crawler with the given concurrency limit, an empty frontier and an
    /// empty pool; `None` for a limit of zero.
    pub fn new(limit: usize) -> (r: Option<Crawler>)
        ensures
            r.is_none() == (limit == 0),
            r matches Some(c) ==> {
                &&& c.wf()
                &&& c.concurrency() == limit
                &&& c.seen().len() == 0
                &&& c.pending().len() == 0
                &&& c.dispatched().len() == 0
                &&& c.in_flight().len() == 0
                &&& c.results() == 0
            },
    {
        if limit == 0 {
            return None;
        }
        let frontier = Frontier::new();
        let c = Crawler { limit, frontier, in_flight: Vec::new(), done: Ghost(0) };
        assert(c.in_flight() =~= Seq::<Seq<char>>::empty());
        Some(c)
    }

    /// Seeds the crawl with `url`: unless it was seen before, it is appended
    /// to the pending queue.
    pub fn seed(&mut self, url: &str)
        requires
            old(self).wf(),
        ensures
            final(self).wf(),
            final(self).concurrency() == old(self).concurrency(),
            final(self).seen() == offer_one(old(self).seen(), url@),
            final(self).pending() == (if old(self).seen().contains(url@) {
                old(self).pending()
            } else {
                old(self).pending().push(url@)
            }),
            final(self).dispatched() == old(self).dispatched(),
            final(self).in_flight() == old(self).in_flight(),
            final(self).results() == old(self).results(),
    {
        self.queue_link(url);
    }

    /// Offers a discovered link to the frontier; a URL already fetched, in
    /// flight or queued is never queued again.
    pub fn queue_link(&mut self, link: &str)
        requires
            old(self).wf(),
        ensures
            final(self).wf(),
            final(self).concurrency() == old(self).concurrency(),
            final(self).seen() == offer_one(old(self).seen(), link@),
            final(self).pending() == (if old(self).seen().contains(link@) {
                old(self).pending()
            } else {
                old(self).pending().push(link@)
            }),
            final(self).dispatched() == old(self).dispatched(),
            final(self).in_flight() == old(self).in_flight(),
            final(self).results() == old(self).results(),
    {
        self.frontier.offer(link);
    }

    /// Offers the links of a page's anchors, in the order given, to the
    /// frontier; anchors without a link are passed over.
    pub fn queue_links(&mut self, hrefs: &Vec<Option<String>>)
        requires
            old(self).wf(),
        ensures
            final(self).wf(),
            final(self).concurrency() == old(self).concurrency(),
            final(self).seen() == offer_all(old(self).seen(), href_views(hrefs@)),
            final(self).pending() == old(self).pending() + final(self).seen().skip(
                old(self).seen().len() as int,
            ),
            final(self).dispatched() == old(self).dispatched(),
            final(self).in_flight() == old(self).in_flight(),
            final(self).results() == old(self).results(),
    {
        self.frontier.offer_links(hrefs);
    }

    /// Parses an HTML body and offers the link of each of its anchors to the
    /// frontier.
    fn extract_and_queue(&mut self, body: &Vec<u8>)
        requires
            old(self).wf(),
        ensures
            final(self).wf(),
            final(self).concurrency() == old(self).concurrency(),
            final(self).seen() == offer_all(old(self).seen(), anchor_hrefs(body@)),
            final(self).pending() == old(self).pending() + final(self).seen().skip(
                old(self).seen().len() as int,
            ),
            final(self).dispatched() == old(self).dispatched(),
            final(self).in_flight() == old(self).in_flight(),
            final(self).results() == old(self).results(),
    {
        let hrefs = extract_hrefs(body);
        self.queue_links(&hrefs);
    }

    /// Fills the pool: takes from the frontier as many URLs as the pool has
    /// free room (fewer if fewer wait), oldest first, and builds a GET request
    /// for each. A URL whose request builds joins the pool; one whose request
    /// does not is reported as rejected and the others go on.
    pub fn top_up(&mut self) -> (r: Vec<Dispatched>)
        requires
            old(self).wf(),
        ensures
            final(self).wf(),
            final(self).concurrency() == old(self).concurrency(),
            r@.len() == old(self).room(),
            final(self).seen() == old(self).seen(),
            final(self).dispatched() == old(self).dispatched() + old(self).pending().take(
                r@.len() as int,
            ),
            final(self).pending() == old(self).pending().skip(r@.len() as int),
            forall|i: int|
                0 <= i < r@.len() ==> {
                    &&& (#[trigger] r@[i]).url_view() == old(self).pending()[i]
                    &&& (r@[i] is Started) == request_builds(old(self).pending()[i], get_method())
                },
            final(self).in_flight() == old(self).in_flight() + started_urls(r@),
            final(self).results() + started_urls(r@).len() == old(self).results() + r@.len(),
            forall|i: int|
                0 <= i < r@.len() ==> final(self).dispatched().contains(
                    (#[trigger] r@[i]).url_view(),
                ),
            forall|i: int|
                0 <= i < r@.len() && (#[trigger] r@[i]) is Rejected ==> !final(self).in_flight().contains(
                    r@[i].url_view(),
                ),
            forall|universe: Set<Seq<char>>| #[trigger]
                final(self).work_left(universe) <= old(self).work_left(universe) - r@.len(),
    {
        let free: usize = self.limit - self.in_flight.len();
        let waiting: usize = self.frontier.len();
        let n: usize = if free < waiting {
            free
        } else {
            waiting
        };
        let mut out: Vec<Dispatched> = Vec::new();
        proof {
            lemma_wf_facts(self);
            assert forall|a: int, b: int|
                0 <= a < old(self).pending().len() && 0 <= b < old(self).pending().len() && a
                    != b implies old(self).pending()[a] != old(self).pending()[b] by {
                let k = old(self).dispatched().len();
                assert(old(self).seen()[k + a] == old(self).pending()[a]);
                assert(old(self).seen()[k + b] == old(self).pending()[b]);
            }
        }
        let mut i: usize = 0;
        while i < n
            invariant
                self.wf(),
                self.limit == old(self).limit,
                n == old(self).room(),
                i <= n,
                out@.len() == i,
                self.seen() == old(self).seen(),
                self.dispatched() == old(self).dispatched() + old(self).pending().take(i as int),
                self.pending() == old(self).pending().skip(i as int),
                forall|j: int|
                    0 <= j < i ==> {
                        &&& (#[trigger] out@[j]).url_view() == old(self).pending()[j]
                        &&& (out@[j] is Started) == request_builds(
                            old(self).pending()[j],
                            get_method(),
                        )
                    },
                self.in_flight() == old(self).in_flight() + started_urls(out@),
                started_urls(out@).len() <= i,
                self.results() + started_urls(out@).len() == old(self).results() + i,
                old(self).pending().no_duplicates(),
                forall|j: int|
                    0 <= j < i && (#[trigger] out@[j]) is Rejected ==> !self.in_flight().contains(
                        out@[j].url_view(),
                    ),
            decreases n - i,
        {
            let ghost taken_before = self.dispatched();
            let ghost flight_before = self.in_flight();
            let ghost out_before = out@;
            let next = self.frontier.take_next();
            let url = next.unwrap();
            let ghost u = url@;
            assert(u == old(self).pending()[i as int]);
            assert(!taken_before.contains(u)) by {
                assert(self.seen() =~= self.dispatched() + self.pending());
                assert(self.seen()[taken_before.len() as int] == u);
                if taken_before.contains(u) {
                    let k = choose|k: int| 0 <= k < taken_before.len() && taken_before[k] == u;
                    assert(self.seen()[k] == u);
                }
            }
            assert(!flight_before.contains(u)) by {
                if flight_before.contains(u) {
                    let k = choose|k: int| 0 <= k < flight_before.len() && flight_before[k] == u;
                    assert(taken_before.contains(flight_before[k]));
                }
            }
            let msg = Message::get(url.as_str());
            match create_request(&msg) {
                Ok(request) => {
                    self.in_flight.push(msg);
                    out.push(Dispatched::Started { url, request });
                    assert(out@.drop_last() =~= out_before);
                    assert(self.in_flight() =~= flight_before.push(u));
                    assert forall|j: int|
                        0 <= j < i + 1 && (#[trigger] out@[j]) is Rejected implies !self.in_flight().contains(
                        out@[j].url_view(),
                    ) by {
                        assert(out@[j] == out_before[j]);
                        assert(old(self).pending()[j] != old(self).pending()[i as int]);
                        if self.in_flight().contains(out@[j].url_view()) {
                            let k = choose|k: int|
                                0 <= k < self.in_flight().len() && self.in_flight()[k]
                                    == out@[j].url_view();
                            if k < flight_before.len() {
                                assert(flight_before[k] == self.in_flight()[k]);
                            }
                        }
                    }
                },
                Err(error) => {
                    self.done = Ghost(self.done@ + 1);
                    out.push(Dispatched::Rejected { url, error });
                    assert(out@.drop_last() =~= out_before);
                    assert forall|j: int|
                        0 <= j < i + 1 && (#[trigger] out@[j]) is Rejected implies !self.in_flight().contains(
                        out@[j].url_view(),
                    ) by {
                        if j < i {
                            assert(out@[j] == out_before[j]);
                        }
                    }
                },
            }
            assert(self.dispatched() =~= old(self).dispatched() + old(self).pending().take(
                i + 1,
            ));
            assert(self.pending() =~= old(self).pending().skip(i + 1));
            assert forall|j: int| 0 <= j < self.in_flight@.len() implies self.dispatched().contains(
                #[trigger] self.in_flight()[j],
            ) by {
                if j < flight_before.len() {
                    assert(flight_before[j] == self.in_flight()[j]);
                    assert(taken_before.contains(flight_before[j]));
                    let k = choose|k: int|
                        0 <= k < taken_before.len() && taken_before[k] == flight_before[j];
                    assert(self.dispatched()[k] == flight_before[j]);
                } else {
                    assert(self.dispatched()[taken_before.len() as int] == u);
                }
            }
            i = i + 1;
        }
        assert forall|j: int| 0 <= j < out@.len() implies self.dispatched().contains(
            (#[trigger] out@[j]).url_view(),
        ) by {
            assert(self.dispatched()[old(self).dispatched().len() + j] == out@[j].url_view());
        }
        out
    }

    /// The position in the pool of the fetch of `url`.
    fn find_unit(&self, url: &String) -> (r: usize)
        requires
            self.in_flight().contains(url@),
        ensures
            r < self.in_flight().len(),
            self.in_flight()[r as int] == url@,
    {
        let mut i: usize = 0;
        while i < self.in_flight.len()
            invariant
                self.in_flight().contains(url@),
                i <= self.in_flight@.len(),
                forall|j: int| 0 <= j < i ==> self.in_flight()[j] != url@,
            decreases self.in_flight@.len() - i,
        {
            if self.in_flight[i].url == *url {
                return i;
            }
            i = i + 1;
        }
        proof {
            let k = choose|k: int| 0 <= k < self.in_flight().len() && self.in_flight()[k] == url@;
            assert(self.in_flight()[k] == url@);
        }
        0
    }

    /// Takes the fetch of `url` out of the pool and turns its outcome into a
    /// result. A transport failure yields an error; a response yields its
    /// record with its status, and with its body only when it is HTML, in
    /// which case the links of its anchors are offered to the frontier.
    pub fn complete(&mut self, url: &str, outcome: Outcome) -> (r: Result<Message, CrawlError>)
        requires
            old(self).wf(),
            old(self).in_flight().contains(url@),
        ensures
            final(self).wf(),
            final(self).concurrency() == old(self).concurrency(),
            yields(url@, outcome, r),
            final(self).seen() == offer_all(old(self).seen(), links_found(outcome)),
            final(self).pending() == old(self).pending() + final(self).seen().skip(
                old(self).seen().len() as int,
            ),
            final(self).dispatched() == old(self).dispatched(),
            exists|i: int|
                0 <= i < old(self).in_flight().len() && old(self).in_flight()[i] == url@
                    && final(self).in_flight() == old(self).in_flight().remove(i),
            final(self).results() == old(self).results() + 1,
            forall|universe: Set<Seq<char>>| #[trigger]
                final(self).work_left(universe) == old(self).work_left(universe) - 1,
    {
        let key = url.to_owned();
        let idx = self.find_unit(&key);
        let ghost flight_before = self.in_flight();
        let mut msg = self.in_flight.remove(idx);
        self.done = Ghost(self.done@ + 1);
        assert(self.in_flight() =~= flight_before.remove(idx as int));
        assert(self.in_flight().no_duplicates()) by {
            assert forall|a: int, b: int|
                0 <= a < self.in_flight().len() && 0 <= b < self.in_flight().len() && a != b
                    implies self.in_flight()[a] != self.in_flight()[b] by {
                let a0 = if a < idx { a } else { a + 1 };
                let b0 = if b < idx { b } else { b + 1 };
                assert(self.in_flight()[a] == flight_before[a0]);
                assert(self.in_flight()[b] == flight_before[b0]);
            }
        }
        assert forall|j: int| 0 <= j < self.in_flight@.len() implies self.dispatched().contains(
            #[trigger] self.in_flight()[j],
        ) by {
            let j0 = if j < idx { j } else { j + 1 };
            assert(self.in_flight()[j] == flight_before[j0]);
            assert(old(self).in_flight@[j0].url@ == flight_before[j0]);
        }
        assert forall|j: int| 0 <= j < self.in_flight@.len() implies {
            &&& (#[trigger] self.in_flight@[j]).method@ == get_method()
            &&& self.in_flight@[j].status.is_none()
            &&& self.in_flight@[j].response_body.is_none()
        } by {
            let j0 = if j < idx { j } else { j + 1 };
            assert(self.in_flight@[j] == old(self).in_flight@[j0]);
        }
        assert(msg.url@ == url@);
        assert(msg.method@ == get_method());
        assert(self.seen().skip(old(self).seen().len() as int) =~= Seq::<Seq<char>>::empty());
        assert(old(self).pending() =~= old(self).pending() + Seq::<Seq<char>>::empty());
        match outcome {
            Outcome::Failed { reason } => Err(CrawlError::Transport { url: msg.url, reason }),
            Outcome::Responded { status, content_type, body } => {
                let policy = match &content_type {
                    Some(ct) => body_policy(Some(ct.as_slice())),
                    None => body_policy(None),
                };
                assert(policy == policy_of(opt_vec_view(content_type)));
                match policy {
                    BodyPolicy::Discard => {
                        msg.status = Some(status);
                        Ok(msg)
                    },
                    BodyPolicy::Keep => {
                        msg.status = Some(status);
                        match body {
                            Some(b) => {
                                self.extract_and_queue(&b);
                                msg.response_body = Some(b);
                            },
                            None => {},
                        }
                        Ok(msg)
                    },
                }
            },
        }
    }

    /// Whether the crawl is over: nothing waits and nothing is in flight.
    pub fn is_exhausted(&self) -> (r: bool)
        ensures
            r == (self.pending().len() == 0 && self.in_flight().len() == 0),
    {
        self.frontier.is_empty() && self.in_flight.len() == 0
    }

    /// The concurrency limit.
    pub fn limit(&self) -> (r: usize)
        ensures
            r == self.concurrency(),
    {
        self.limit
    }

    /// The number of URLs waiting.
    pub fn pending_count(&self) -> (r: usize)
        ensures
            r == self.pending().len(),
    {
        self.frontier.len()
    }

    /// The number of fetches in flight.
    pub fn in_flight_count(&self) -> (r: usize)
        ensures
            r == self.in_flight().len(),
    {
        self.in_flight.len()
    }
}

/// No URL is dispatched twice: the URLs a crawler has dispatched are
/// distinct, and none of them waits in its queue again. Every step only
/// appends to what was dispatched, so this holds over the crawler's life.
pub proof fn lemma_dispatch_at_most_once(c: &Crawler)
    requires
        c.wf(),
    ensures
        c.dispatched().no_duplicates(),
        forall|u: Seq<char>| c.dispatched().contains(u) ==> !c.pending().contains(u),
{
    let seen = c.seen();
    let taken = c.dispatched();
    let pending = c.pending();
    assert forall|a: int, b: int| 0 <= a < taken.len() && 0 <= b < taken.len() && a != b implies taken[a]
        != taken[b] by {
        assert(seen[a] == taken[a] && seen[b] == taken[b]);
    }
    assert forall|u: Seq<char>| taken.contains(u) implies !pending.contains(u) by {
        let a = choose|a: int| 0 <= a < taken.len() && taken[a] == u;
        if pending.contains(u) {
            let b = choose|b: int| 0 <= b < pending.len() && pending[b] == u;
            assert(seen[a] == u && seen[taken.len() + b] == u);
        }
    }
}

/// The pool never holds more fetches than the concurrency limit.
pub proof fn lemma_pool_within_limit(c: &Crawler)
    requires
        c.wf(),
    ensures
        c.in_flight().len() <= c.concurrency(),
{
}

/// A crawl over a finite set of reachable URLs is finite: when every URL the
/// crawler has seen lies in `universe`, the results yielded so far, the
/// fetches in flight and the URLs still waiting together number at most the
/// URLs of `universe`. Each completed fetch adds one result, so the results
/// run out and the crawler reaches the state where nothing waits and nothing
/// is in flight.
pub proof fn lemma_results_bounded(c: &Crawler, universe: Set<Seq<char>>)
    requires
        c.wf(),
        universe.finite(),
        forall|i: int| 0 <= i < c.seen().len() ==> universe.contains(#[trigger] c.seen()[i]),
    ensures
        c.results() + c.in_flight().len() + c.pending().len() <= universe.len(),
{
    let seen = c.seen();
    seen.unique_seq_to_set();
    assert(seen.to_set().subset_of(universe)) by {
        assert forall|u: Seq<char>| seen.to_set().contains(u) implies universe.contains(u) by {
            let i = choose|i: int| 0 <= i < seen.len() && seen[i] == u;
        }
    }
    vstd::set_lib::lemma_len_subset(seen.to_set(), universe);
}

/// Every response yields a record with its status, whatever its headers and
/// its body hold, malformed HTML included. A response that is not HTML
/// yields no body and offers no link, whatever its payload.
pub proof fn lemma_response_yields_record(
    url: Seq<char>,
    status: u16,
    content_type: Option<Vec<u8>>,
    body: Option<Vec<u8>>,
    r: Result<Message, CrawlError>,
)
    requires
        yields(url, Outcome::Responded { status, content_type, body }, r),
    ensures
        r is Ok,
        r->Ok_0.url@ == url,
        r->Ok_0.status == Some(status),
        policy_of(opt_vec_view(content_type)) == BodyPolicy::Discard ==> {
            &&& r->Ok_0.response_body is None
            &&& links_found(Outcome::Responded { status, content_type, body }) == Seq::<
                Option<Seq<char>>,
            >::empty()
        },
{
}

/// What the invariant of a crawler tells its users: the accepted URLs are
/// those dispatched followed by those waiting, without repeats; every fetch
/// in flight is of a dispatched URL, and appears once; the limit is positive
/// and the pool within it; and each dispatched URL has either yielded its
/// result or is in flight.
pub proof fn lemma_wf_facts(c: &Crawler)
    requires
        c.wf(),
    ensures
        c.seen() == c.dispatched() + c.pending(),
        c.seen().no_duplicates(),
        c.concurrency() > 0,
        c.in_flight().len() <= c.concurrency(),
        c.in_flight().no_duplicates(),
        forall|i: int|
            0 <= i < c.in_flight().len() ==> c.dispatched().contains(#[trigger] c.in_flight()[i]),
        c.results() + c.in_flight().len() == c.dispatched().len(),
{
}

/// A crawl over a finite set of reachable URLs ends. When every URL the
/// crawler has seen lies in `universe`, what is left of the crawl is never
/// negative; while the crawl is not over a step is always possible (a top-up
/// that dispatches, or a fetch in flight to complete), and each such step
/// lowers what is left (see `top_up` and `complete`); and when nothing is
/// left the crawl is over.
pub proof fn lemma_crawl_terminates(c: &Crawler, universe: Set<Seq<char>>)
    requires
        c.wf(),
        universe.finite(),
        forall|i: int| 0 <= i < c.seen().len() ==> universe.contains(#[trigger] c.seen()[i]),
    ensures
        c.work_left(universe) >= 0,
        !(c.pending().len() == 0 && c.in_flight().len() == 0) ==> c.room() > 0
            || c.in_flight().len() > 0,
        c.work_left(universe) == 0 ==> c.pending().len() == 0 && c.in_flight().len() == 0,
{
    lemma_results_bounded(c, universe);
}

} // verus!
