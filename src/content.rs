use vstd::prelude::*;

verus! {

/// The bytes of the media type `text/html`.
pub open spec fn html_marker() -> Seq<u8> {
    seq![116u8, 101u8, 120u8, 116u8, 47u8, 104u8, 116u8, 109u8, 108u8]
}

/// `pat` occurs in `s` starting at position `i`.
pub open spec fn occurs_at(s: Seq<u8>, pat: Seq<u8>, i: int) -> bool {
    0 <= i && i + pat.len() <= s.len() && s.subrange(i, i + pat.len()) == pat
}

/// `pat` occurs somewhere in `s`.
pub open spec fn contains_bytes(s: Seq<u8>, pat: Seq<u8>) -> bool {
    exists|i: int| #[trigger] occurs_at(s, pat, i)
}

/// What to do with a response body, decided by its declared content type.
#[derive(Debug, Clone, Copy, PartialEq, Eq, Structural)]
pub enum BodyPolicy {
    /// The response is HTML: read the whole body and keep it.
    Keep,
    /// The response is something else, or declares no type: drop the body unread.
    Discard,
}

/// The policy for a response whose content-type header is `content_type`.
pub open spec fn policy_of(content_type: Option<Seq<u8>>) -> BodyPolicy {
    match content_type {
        None => BodyPolicy::Discard,
        Some(ct) => if contains_bytes(ct, html_marker()) {
            BodyPolicy::Keep
        } else {
            BodyPolicy::Discard
        },
    }
}

/// The view of an optional header value.
pub open spec fn opt_bytes(content_type: Option<&[u8]>) -> Option<Seq<u8>> {
    match content_type {
        None => None,
        Some(ct) => Some(ct@),
    }
}

fn matches_at(s: &[u8], pat: &Vec<u8>, i: usize) -> (r: bool)
    requires
        i + pat@.len() <= s@.len(),
    ensures
        r == occurs_at(s@, pat@, i as int),
{
    let n: usize = s.len();
    let mut j: usize = 0;
    while j < pat.len()
        invariant
            n == s@.len(),
            i + pat@.len() <= s@.len(),
            j <= pat@.len(),
            forall|k: int| 0 <= k < j ==> s@[i + k] == pat@[k],
        decreases pat@.len() - j,
    {
        if s[i + j] != pat[j] {
            assert(s@.subrange(i as int, i + pat@.len())[j as int] != pat@[j as int]);
            return false;
        }
        j = j + 1;
    }
    assert(s@.subrange(i as int, i + pat@.len()) =~= pat@);
    true
}

/// Whether `pat` occurs in `s`.
fn find_bytes(s: &[u8], pat: &Vec<u8>) -> (r: bool)
    ensures
        r == contains_bytes(s@, pat@),
{
    if pat.len() > s.len() {
        assert forall|i: int| !occurs_at(s@, pat@, i) by {}
        return false;
    }
    if pat.len() == 0 {
        assert(s@.subrange(0, 0) =~= pat@);
        assert(occurs_at(s@, pat@, 0));
        return true;
    }
    let positions: usize = s.len() - pat.len() + 1;
    let mut i: usize = 0;
    while i < positions
        invariant
            positions == s@.len() - pat@.len() + 1,
            forall|k: int| 0 <= k < i ==> !#[trigger] occurs_at(s@, pat@, k),
        decreases positions - i,
    {
        if matches_at(s, pat, i) {
            return true;
        }
        i = i + 1;
    }
    false
}

/// Decides, from the content-type header of a response, whether its body is
/// read and kept (the header names `text/html`) or dropped unread (any other
/// type, or no header). The header is read as bytes, whatever they hold.
pub fn body_policy(content_type: Option<&[u8]>) -> (r: BodyPolicy)
    ensures
        r == policy_of(opt_bytes(content_type)),
{
    match content_type {
        None => BodyPolicy::Discard,
        Some(ct) => {
            let marker: Vec<u8> = vec![116u8, 101u8, 120u8, 116u8, 47u8, 104u8, 116u8, 109u8, 108u8];
            assert(marker@ =~= html_marker());
            if find_bytes(ct, &marker) {
                BodyPolicy::Keep
            } else {
                BodyPolicy::Discard
            }
        },
    }
}

} // verus!
