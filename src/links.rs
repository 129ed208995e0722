use vstd::prelude::*;

verus! {

/// The `href` attribute of each anchor element of the tree parsed from an
/// HTML document, in the order the parser created the elements (the source
/// order, but for elements the parser moves, as out of a table); `None` for
/// an anchor without one.
pub uninterp spec fn anchor_hrefs(body: Seq<u8>) -> Seq<Option<Seq<char>>>;

/// The views of a list of optional strings.
pub open spec fn href_views(hrefs: Seq<Option<String>>) -> Seq<Option<Seq<char>>> {
    hrefs.map_values(
        |h: Option<String>|
            match h {
                Some(s) => Some(s@),
                None => None,
            },
    )
}

/// Relies on scraper's `Html::parse_document` on the body read as UTF-8
/// (invalid sequences replaced), `Selector::parse("a")`, `Html::select` and
/// `Element::attr("href")`: parsing is best effort and never fails, and
/// `select` walks the elements in the order the parser created them.
#[verifier::external_body]
pub(crate) fn extract_hrefs(body: &Vec<u8>) -> (r: Vec<Option<String>>)
    ensures
        href_views(r@) == anchor_hrefs(body@),
{
    let doc = scraper::Html::parse_document(&String::from_utf8_lossy(body));
    let anchors = scraper::Selector::parse("a").expect("the selector `a` parses");
    doc.select(&anchors).map(|e| e.value().attr("href").map(String::from)).collect()
}

} // verus!
