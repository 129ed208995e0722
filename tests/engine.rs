use crawler::content::{body_policy, BodyPolicy};
use crawler::crawler::{CrawlError, Crawler, Dispatched, Outcome};
use crawler::fetch::Message;
use crawler::frontier::Frontier;

fn started_urls(ds: &[Dispatched]) -> Vec<String> {
    ds.iter()
        .filter_map(|d| match d {
            Dispatched::Started { url, .. } => Some(url.clone()),
            Dispatched::Rejected { .. } => None,
        })
        .collect()
}

fn html(body: &str) -> Outcome {
    Outcome::Responded {
        status: 200,
        content_type: Some(b"text/html".to_vec()),
        body: Some(body.as_bytes().to_vec()),
    }
}

#[test]
fn zero_limit_is_rejected() {
    assert!(Crawler::new(0).is_none());
    assert_eq!(Crawler::new(3).unwrap().limit(), 3);
}

#[test]
fn seeding_twice_queues_once() {
    let mut c = Crawler::new(4).unwrap();
    c.seed("https://a.test/");
    c.seed("https://b.test/");
    c.seed("https://a.test/");
    assert_eq!(c.pending_count(), 2);
    let d = c.top_up();
    assert_eq!(started_urls(&d), vec!["https://a.test/", "https://b.test/"]);
}

#[test]
fn dispatched_url_is_never_queued_again() {
    let mut c = Crawler::new(1).unwrap();
    c.seed("https://a.test/");
    let d = c.top_up();
    assert_eq!(d.len(), 1);
    c.queue_link("https://a.test/");
    assert_eq!(c.pending_count(), 0);
    let r = c.complete("https://a.test/", html("<a href=\"https://a.test/\">self</a>"));
    assert!(r.is_ok());
    assert_eq!(c.pending_count(), 0);
    assert!(c.is_exhausted());
}

#[test]
fn pool_never_exceeds_limit() {
    let mut c = Crawler::new(2).unwrap();
    for u in ["https://x.test/1", "https://x.test/2", "https://x.test/3", "https://x.test/4", "https://x.test/5"] {
        c.seed(u);
    }
    let d = c.top_up();
    assert_eq!(started_urls(&d), vec!["https://x.test/1", "https://x.test/2"]);
    assert_eq!(c.in_flight_count(), 2);
    assert_eq!(c.top_up().len(), 0);
    assert_eq!(c.pending_count(), 3);
    let r = c.complete("https://x.test/2", Outcome::Failed { reason: "reset".to_string() });
    assert!(r.is_err());
    let d = c.top_up();
    assert_eq!(started_urls(&d), vec!["https://x.test/3"]);
    assert_eq!(c.in_flight_count(), 2);
}

#[test]
fn links_are_offered_once_in_document_order() {
    let mut c = Crawler::new(1).unwrap();
    c.queue_links(&vec![
        Some("/a".to_string()),
        Some("https://x/b".to_string()),
        None,
        Some("/a".to_string()),
        Some("https://x/b".to_string()),
    ]);
    assert_eq!(c.pending_count(), 2);
    let mut f = Frontier::new();
    assert!(f.offer("/a"));
    assert!(!f.offer("/a"));
    assert_eq!(f.take_next(), Some("/a".to_string()));
    assert_eq!(f.take_next(), None);
    assert!(f.is_empty());
}

#[test]
fn html_response_propagates_links() {
    let mut c = Crawler::new(5).unwrap();
    c.seed("https://x/");
    c.top_up();
    let page = "<html><body><a href=\"/a\">1</a><a href=\"https://x/b\">2</a>\
                <a name=\"n\">3</a><a href=\"/a\">4</a><a href=\"https://x/b\">5</a></body></html>";
    let msg = c.complete("https://x/", html(page)).unwrap();
    assert_eq!(msg.status, Some(200));
    assert_eq!(msg.response_body, Some(page.as_bytes().to_vec()));
    assert_eq!(c.pending_count(), 2);
    let d = c.top_up();
    assert_eq!(d.len(), 2);
    let urls: Vec<String> = d
        .iter()
        .map(|x| match x {
            Dispatched::Started { url, .. } => url.clone(),
            Dispatched::Rejected { url, .. } => url.clone(),
        })
        .collect();
    assert_eq!(urls, vec!["/a", "https://x/b"]);
}

#[test]
fn json_response_is_not_parsed() {
    let mut c = Crawler::new(1).unwrap();
    c.seed("https://x/data");
    c.top_up();
    let outcome = Outcome::Responded {
        status: 200,
        content_type: Some(b"application/json".to_vec()),
        body: Some(b"<a href=\"/never\">x</a>".to_vec()),
    };
    let msg = c.complete("https://x/data", outcome).unwrap();
    assert_eq!(msg.status, Some(200));
    assert!(msg.response_body.is_none());
    assert_eq!(c.pending_count(), 0);
    assert!(c.is_exhausted());
}

#[test]
fn truncated_html_still_yields_a_result() {
    let mut c = Crawler::new(1).unwrap();
    c.seed("https://x/");
    c.top_up();
    let msg = c.complete("https://x/", html("<a href=")).unwrap();
    assert_eq!(msg.url, "https://x/");
    assert_eq!(msg.status, Some(200));
    assert_eq!(msg.response_body, Some(b"<a href=".to_vec()));
}

#[test]
fn end_to_end_two_pages() {
    let mut c = Crawler::new(8).unwrap();
    c.seed("https://example.test/");
    let mut statuses = Vec::new();
    let mut fetched = Vec::new();
    while !c.is_exhausted() {
        let urls = started_urls(&c.top_up());
        assert!(urls.len() <= 1);
        for url in urls {
            let outcome = if url == "https://example.test/" {
                html("<a href=\"https://example.test/2\">x</a>")
            } else if url == "https://example.test/2" {
                Outcome::Responded {
                    status: 404,
                    content_type: Some(b"text/plain".to_vec()),
                    body: None,
                }
            } else {
                panic!("unexpected fetch of {}", url)
            };
            let msg = c.complete(&url, outcome).unwrap();
            statuses.push(msg.status.unwrap());
            fetched.push(msg.url);
        }
    }
    statuses.sort();
    assert_eq!(statuses, vec![200, 404]);
    assert_eq!(fetched.len(), 2);
    assert_eq!(c.top_up().len(), 0);
}

#[test]
fn transport_failure_yields_one_error() {
    let mut c = Crawler::new(3).unwrap();
    c.seed("https://down.test/");
    assert_eq!(c.top_up().len(), 1);
    let r = c.complete("https://down.test/", Outcome::Failed { reason: "connection refused".to_string() });
    match r {
        Err(CrawlError::Transport { url, reason }) => {
            assert_eq!(url, "https://down.test/");
            assert_eq!(reason, "connection refused");
        }
        other => panic!("unexpected {:?}", other),
    }
    assert!(c.is_exhausted());
}

#[test]
fn unparsable_url_is_rejected_and_crawl_goes_on() {
    let mut c = Crawler::new(3).unwrap();
    c.seed("https://ok.test/");
    c.seed("http://bad host/");
    c.seed("https://also.test/");
    let d = c.top_up();
    assert_eq!(d.len(), 3);
    assert!(matches!(&d[1], Dispatched::Rejected { url, .. } if url == "http://bad host/"));
    assert_eq!(started_urls(&d), vec!["https://ok.test/", "https://also.test/"]);
    assert_eq!(c.in_flight_count(), 2);
}

#[test]
fn content_type_with_odd_bytes_still_yields_a_record() {
    let mut c = Crawler::new(2).unwrap();
    c.seed("https://x/");
    c.seed("https://y/");
    c.top_up();
    let plain = Outcome::Responded {
        status: 200,
        content_type: Some(vec![116, 1, 120]),
        body: Some(b"<a href=\"/p\">p</a>".to_vec()),
    };
    let msg = c.complete("https://x/", plain).unwrap();
    assert_eq!(msg.url, "https://x/");
    assert_eq!(msg.status, Some(200));
    assert!(msg.response_body.is_none());
    assert_eq!(c.pending_count(), 0);
    let mut ct = b"text/html".to_vec();
    ct.push(200);
    let page = b"<a href=\"/q\">q</a>".to_vec();
    let html_msg = c
        .complete("https://y/", Outcome::Responded { status: 201, content_type: Some(ct), body: Some(page.clone()) })
        .unwrap();
    assert_eq!(html_msg.status, Some(201));
    assert_eq!(html_msg.response_body, Some(page));
    assert_eq!(c.pending_count(), 1);
}

#[test]
fn body_policy_by_content_type() {
    assert_eq!(body_policy(None), BodyPolicy::Discard);
    assert_eq!(body_policy(Some(b"text/html")), BodyPolicy::Keep);
    assert_eq!(body_policy(Some(b"text/html; charset=utf-8")), BodyPolicy::Keep);
    assert_eq!(body_policy(Some(b"application/xhtml+xml,\ttext/html")), BodyPolicy::Keep);
    assert_eq!(body_policy(Some(b"text/htm")), BodyPolicy::Discard);
    assert_eq!(body_policy(Some(b"application/json")), BodyPolicy::Discard);
    assert_eq!(body_policy(Some(b"")), BodyPolicy::Discard);
    assert_eq!(body_policy(Some(&[116, 101, 120, 116, 47, 104, 116, 109, 108, 200])), BodyPolicy::Keep);
    assert_eq!(body_policy(Some(&[0, 255, 9, 97])), BodyPolicy::Discard);
}

#[test]
fn new_message_is_incomplete() {
    let m = Message::new_message("https://x/", "HEAD");
    assert_eq!(m.url, "https://x/");
    assert_eq!(m.method, "HEAD");
    assert!(m.status.is_none());
    assert!(m.response_body.is_none());
    assert_eq!(Message::get("https://y/").method, "GET");
}
