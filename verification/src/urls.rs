//! Product and wishlist URL handling. Resolution of an href against the fixed
//! site origin is the url crate's work, behind trusted wrappers whose results
//! carry names; picking the product id out of the resolved path is this
//! crate's own, verified logic.

use vstd::prelude::*;
use crate::models::ItemMetaData;

verus! {

/// Why a scraped fragment yields no item: the href does not resolve, the
/// resolved path is too short for a product id, or a required attribute is
/// missing from the element.
#[derive(Debug, Clone, Copy, PartialEq, Eq)]
pub enum ExtractionError {
    MalformedUrl,
    MissingSegment,
    MissingAttribute,
}

/// What resolving `input` against `base` yields, as the url crate computes
/// it; `None` where parsing or joining fails.
pub uninterp spec fn url_join_of(base: Seq<char>, input: Seq<char>) -> Option<Seq<char>>;

/// Relies on `url::Url::parse` and `url::Url::join`: the resolved URL is a
/// function of the two strings alone, and an error is reported exactly where
/// parsing or joining fails.
#[verifier::external_body]
fn url_join(base: &str, input: &str) -> (r: Option<String>)
    ensures
        r is Some <==> url_join_of(base@, input@) is Some,
        r matches Some(s) ==> Some(s@) == url_join_of(base@, input@),
{
    match url::Url::parse(base) {
        Ok(u) => match u.join(input) {
            Ok(j) => Some(String::from(j)),
            Err(_) => None,
        },
        Err(_) => None,
    }
}

/// What resolving `input` against `base` and dropping the query yields: the
/// full URL string and its path, or `None` where parsing or joining fails.
pub uninterp spec fn url_join_page_of(base: Seq<char>, input: Seq<char>) -> Option<
    (Seq<char>, Seq<char>),
>;

/// Relies on `url::Url::parse`, `url::Url::join`, `url::Url::set_query` and
/// `url::Url::path`: the query-stripped URL and its path are functions of the
/// two strings alone, and an error is reported exactly where parsing or
/// joining fails.
#[verifier::external_body]
fn url_join_page(base: &str, input: &str) -> (r: Option<(String, String)>)
    ensures
        r is Some <==> url_join_page_of(base@, input@) is Some,
        r matches Some(p) ==> Some((p.0@, p.1@)) == url_join_page_of(base@, input@),
{
    match url::Url::parse(base) {
        Ok(u) => match u.join(input) {
            Ok(mut j) => {
                j.set_query(None);
                let path = j.path().to_owned();
                Some((String::from(j), path))
            },
            Err(_) => None,
        },
        Err(_) => None,
    }
}

/// Index of the first `/` in `p`, or `p.len()` if there is none.
pub open spec fn first_slash(p: Seq<char>) -> int
    decreases p.len(),
{
    if p.len() == 0 {
        0
    } else if p[0] == '/' {
        0
    } else {
        1 + first_slash(p.skip(1))
    }
}

pub proof fn lemma_first_slash(p: Seq<char>)
    ensures
        0 <= first_slash(p) <= p.len(),
        first_slash(p) < p.len() ==> p[first_slash(p)] == '/',
        forall|k: int| 0 <= k < first_slash(p) ==> p[k] != '/',
    decreases p.len(),
{
    if p.len() > 0 && p[0] != '/' {
        lemma_first_slash(p.skip(1));
        let f = first_slash(p);
        assert forall|k: int| 0 <= k < f implies p[k] != '/' by {
            if k > 0 {
                assert(p.skip(1)[k - 1] == p[k]);
            }
        }
        if f < p.len() {
            assert(p.skip(1)[f - 1] == p[f]);
        }
    }
}

/// `p` split on `/`; empty segments are kept, so a path `/dp/X/` splits into
/// four segments of which the product id is the third.
pub open spec fn split_slash(p: Seq<char>) -> Seq<Seq<char>>
    decreases p.len(),
    via split_slash_dec
{
    if first_slash(p) == p.len() {
        Seq::empty().push(p)
    } else {
        Seq::empty().push(p.take(first_slash(p))) + split_slash(p.skip(first_slash(p) + 1))
    }
}

#[via_fn]
proof fn split_slash_dec(p: Seq<char>) {
    lemma_first_slash(p);
}

/// The segment of `path` at `idx`, counting empty segments.
pub fn nth_segment(path: &str, idx: usize) -> (r: Option<String>)
    ensures
        r is Some <==> idx < split_slash(path@).len(),
        r matches Some(v) ==> idx < split_slash(path@).len() && v@ == split_slash(path@)[idx as int],
{
    let n = path.unicode_len();
    let ghost p = path@;
    let mut pos: usize = 0;
    let mut count: usize = 0;
    let ghost mut done: Seq<Seq<char>> = Seq::empty();
    proof {
        assert(p.skip(0) =~= p);
        assert(split_slash(p) =~= done + split_slash(p.skip(0)));
    }
    loop
        invariant
            pos <= n,
            n == p.len(),
            p == path@,
            count <= idx,
            done.len() == count,
            split_slash(p) =~= done + split_slash(p.skip(pos as int)),
        decreases n - pos, idx - count,
    {
        let ghost rem = p.skip(pos as int);
        let mut j = pos;
        while j < n && path.get_char(j) != '/'
            invariant
                pos <= j <= n,
                n == p.len(),
                p == path@,
                forall|k: int| pos <= k < j ==> p[k] != '/',
            decreases n - j,
        {
            j = j + 1;
        }
        proof {
            lemma_first_slash(rem);
            assert forall|k: int| 0 <= k < j - pos implies rem[k] != '/' by {
                assert(rem[k] == p[pos + k]);
            }
            if j < n {
                assert(rem[j - pos] == p[j as int]);
            }
            assert(first_slash(rem) == j - pos) by {
                let f = first_slash(rem);
                if f < j - pos {
                    assert(rem[f] != '/');
                }
                if f > j - pos {
                    assert(j - pos < rem.len());
                    assert(rem[j - pos] != '/');
                    assert(j < n);
                }
            }
        }
        if count == idx {
            let seg = path.substring_char(pos, j).to_owned();
            proof {
                if j < n {
                    assert(rem.take(j - pos) =~= p.subrange(pos as int, j as int));
                    assert(split_slash(rem)[0] == p.subrange(pos as int, j as int));
                } else {
                    assert(rem =~= p.subrange(pos as int, j as int));
                    assert(split_slash(rem)[0] == rem);
                }
                assert(split_slash(p)[idx as int] == split_slash(rem)[0]);
            }
            return Some(seg);
        }
        if j >= n {
            proof {
                assert(first_slash(rem) == rem.len());
                assert(split_slash(rem).len() == 1);
                assert(split_slash(p).len() == count + 1);
            }
            return None;
        }
        proof {
            assert(rem.skip(first_slash(rem) + 1) =~= p.skip(j + 1));
            assert(split_slash(rem) =~= Seq::empty().push(rem.take(first_slash(rem)))
                + split_slash(p.skip(j + 1)));
            done = done.push(rem.take(first_slash(rem)));
            assert(split_slash(p) =~= done + split_slash(p.skip(j + 1)));
        }
        pos = j + 1;
        count = count + 1;
    }
}

/// Builds the page URL of a tracked wishlist from its id.
pub fn create_wish_list_url(id: &str) -> (r: Result<String, ExtractionError>)
    ensures
        r is Ok <==> url_join_of("https://www.amazon.jp/hz/wishlist/ls/"@, id@) is Some,
        r matches Ok(u) ==> Some(u@) == url_join_of("https://www.amazon.jp/hz/wishlist/ls/"@, id@),
        r is Err ==> r == Err::<String, ExtractionError>(ExtractionError::MalformedUrl),
{
    match url_join("https://www.amazon.jp/hz/wishlist/ls/", id) {
        Some(u) => Ok(u),
        None => Err(ExtractionError::MalformedUrl),
    }
}

/// Builds the product page URL of one tracked product from its id.
pub fn create_url(id: &str) -> (r: Result<String, ExtractionError>)
    ensures
        r is Ok <==> url_join_of("https://www.amazon.co.jp/dp/"@, id@) is Some,
        r matches Ok(u) ==> Some(u@) == url_join_of("https://www.amazon.co.jp/dp/"@, id@),
        r is Err ==> r == Err::<String, ExtractionError>(ExtractionError::MalformedUrl),
{
    match url_join("https://www.amazon.co.jp/dp/", id) {
        Some(u) => Ok(u),
        None => Err(ExtractionError::MalformedUrl),
    }
}

/// Resolves an item href against the site origin and strips its query.
pub fn create_item_url(href: &str) -> (r: Result<String, ExtractionError>)
    ensures
        r is Ok <==> url_join_page_of("https://www.amazon.co.jp"@, href@) is Some,
        r matches Ok(u) ==> url_join_page_of("https://www.amazon.co.jp"@, href@) matches Some(p)
            && u@ == p.0,
        r is Err ==> r == Err::<String, ExtractionError>(ExtractionError::MalformedUrl),
{
    match url_join_page("https://www.amazon.co.jp", href) {
        Some(p) => Ok(p.0),
        None => Err(ExtractionError::MalformedUrl),
    }
}

/// What `ItemMetaData::new` yields on a scraped link: the canonical URL and
/// the product id, the third segment of the resolved path.
pub open spec fn spec_item_parts(href: Seq<char>) -> Result<
    (Seq<char>, Seq<char>),
    ExtractionError,
> {
    match url_join_page_of("https://www.amazon.co.jp"@, href) {
        None => Err(ExtractionError::MalformedUrl),
        Some(p) => if split_slash(p.1).len() > 2 {
            Ok((p.0, split_slash(p.1)[2]))
        } else {
            Err(ExtractionError::MissingSegment)
        },
    }
}

impl ItemMetaData {
    /// Builds the metadata of one item from its scraped link: resolves the
    /// href against the site origin, strips the query, and takes the product
    /// id from its fixed position in the path.
    pub fn new(href: &str, title: &str, price: &str) -> (r: Result<ItemMetaData, ExtractionError>)
        ensures
            r is Ok <==> spec_item_parts(href@) is Ok,
            r matches Ok(m) ==> spec_item_parts(href@) matches Ok(p) && m.url@ == p.0 && m.id@
                == p.1 && m.title@ == title@ && m.price@ == price@,
            r matches Err(e) ==> Err::<(Seq<char>, Seq<char>), ExtractionError>(e)
                == spec_item_parts(href@),
    {
        match url_join_page("https://www.amazon.co.jp", href) {
            None => Err(ExtractionError::MalformedUrl),
            Some(p) => {
                let (url, path) = p;
                match nth_segment(path.as_str(), 2) {
                    None => Err(ExtractionError::MissingSegment),
                    Some(id) => Ok(
                        ItemMetaData { id, url, title: title.to_owned(), price: price.to_owned() },
                    ),
                }
            },
        }
    }
}

/// Builds the metadata of one item from its scraped link; equivalent to
/// [`ItemMetaData::new`].
pub fn create(href: &str, title: &str, price: &str) -> (r: Result<ItemMetaData, ExtractionError>)
    ensures
        r is Ok <==> spec_item_parts(href@) is Ok,
        r matches Ok(m) ==> spec_item_parts(href@) matches Ok(p) && m.url@ == p.0 && m.id@ == p.1
            && m.title@ == title@ && m.price@ == price@,
        r matches Err(e) ==> Err::<(Seq<char>, Seq<char>), ExtractionError>(e) == spec_item_parts(
            href@,
        ),
{
    ItemMetaData::new(href, title, price)
}

} // verus!
