use vstd::prelude::*;

verus! {

/// The serialization that the URL parser gives `s`, or `None` when `s` is
/// not an absolute URL.
pub uninterp spec fn url_serialization(s: Seq<char>) -> Option<Seq<char>>;

/// The path component of the URL that `s` parses to.
pub uninterp spec fn url_path(s: Seq<char>) -> Option<Seq<char>>;

/// Relies on `url::Url::parse`: parses `s` as an absolute URL and returns its
/// normalized serialization (`From<Url> for String` hands it over unchanged).
#[verifier::external_body]
pub(crate) fn normalize_url(s: &str) -> (r: Option<String>)
    ensures
        r.deep_view() == url_serialization(s@),
{
    url::Url::parse(s).ok().map(String::from)
}

/// Relies on `url::Url::path`: the path of the URL that `s` parses to.
#[verifier::external_body]
pub(crate) fn path_of_url(s: &str) -> (r: Option<String>)
    ensures
        r.deep_view() == url_path(s@),
        url_serialization(s@) is Some ==> r is Some,
{
    url::Url::parse(s).ok().map(|u| u.path().to_string())
}

/// Index of the last `/` in `p`, if any.
pub open spec fn last_slash(p: Seq<char>) -> Option<int>
    decreases p.len(),
{
    if p.len() == 0 {
        None
    } else if p.last() == '/' {
        Some(p.len() - 1)
    } else {
        last_slash(p.drop_last())
    }
}

/// The last `/`-separated segment of a path that starts with `/`; `None` for
/// a path without a leading `/`.
pub open spec fn last_segment(p: Seq<char>) -> Option<Seq<char>> {
    if p.len() > 0 && p[0] == '/' {
        match last_slash(p) {
            Some(k) => Some(p.subrange(k + 1, p.len() as int)),
            None => None,
        }
    } else {
        None
    }
}

pub(crate) proof fn lemma_last_slash_bounds(p: Seq<char>)
    ensures
        match last_slash(p) {
            Some(k) => 0 <= k < p.len() && p[k] == '/' && forall|j: int|
                k < j < p.len() ==> p[j] != '/',
            None => forall|j: int| 0 <= j < p.len() ==> p[j] != '/',
        },
    decreases p.len(),
{
    if p.len() > 0 && p.last() != '/' {
        lemma_last_slash_bounds(p.drop_last());
        assert forall|j: int| 0 <= j < p.len() - 1 implies p.drop_last()[j] == p[j] by {}
    }
}

/// The last segment of path `p`, as `last_segment` describes it.
pub fn last_path_segment(p: &str) -> (r: Option<String>)
    ensures
        r.deep_view() == last_segment(p@),
{
    let n = p.unicode_len();
    if n == 0 || p.get_char(0) != '/' {
        return None;
    }
    let mut k: usize = n;
    while k > 0
        invariant
            n == p@.len(),
            n > 0 && p@[0] == '/',
            k <= n,
            forall|j: int| k <= j < n ==> p@[j] != '/',
        decreases k,
    {
        if p.get_char(k - 1) == '/' {
            proof {
                lemma_last_slash_bounds(p@);
                lemma_last_slash_is(p@, k - 1);
            }
            let seg = p.substring_char(k, n);
            let r = seg.to_owned();
            assert(r@ == p@.subrange(k as int, n as int));
            assert(last_slash(p@) == Some(k - 1));
            assert(Some(r).deep_view() == Some(r@));
            return Some(r);
        }
        k = k - 1;
    }
    proof {
        lemma_last_slash_bounds(p@);
    }
    None
}

pub(crate) proof fn lemma_last_slash_is(p: Seq<char>, k: int)
    requires
        0 <= k < p.len(),
        p[k] == '/',
        forall|j: int| k < j < p.len() ==> p[j] != '/',
    ensures
        last_slash(p) == Some(k),
    decreases p.len(),
{
    if p.last() != '/' {
        lemma_last_slash_is(p.drop_last(), k);
    }
}

} // verus!
