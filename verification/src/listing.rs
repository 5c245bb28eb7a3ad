//! The scraped record and its identity key.
//!
//! A listing is one raw record observed on a marketplace: a free-text name, a
//! free-text price, a URL and the marketplace tag.  Its dedup identity is the
//! pair of the source tag and the URL with any query string removed.

use vstd::prelude::*;
use vstd::string::{StrSliceExecFns, StringExecFns};

verus! {

/// The marketplace a listing was observed on.
#[derive(Clone, Copy, Debug, PartialEq, Eq, Structural, Hash)]
pub enum Source {
    /// The lower-priced marketplace whose listings are purchase candidates.
    BuySide,
    /// The marketplace the goods would be resold on.
    ResaleSide,
    /// The marketplace providing completed-sale reference prices.
    ReferenceSoldSide,
}

/// One scraped record, immutable once created.
pub struct Listing {
    pub name: String,
    pub price: String,
    pub url: String,
    pub source: Source,
}

/// The mathematical value of a [`Listing`].
pub struct ListingModel {
    pub name: Seq<char>,
    pub price: Seq<char>,
    pub url: Seq<char>,
    pub source: Source,
}

impl View for Listing {
    type V = ListingModel;

    open spec fn view(&self) -> ListingModel {
        ListingModel {
            name: self.name@,
            price: self.price@,
            url: self.url@,
            source: self.source,
        }
    }
}

impl DeepView for Listing {
    type V = ListingModel;

    open spec fn deep_view(&self) -> ListingModel {
        self.view()
    }
}

impl Clone for Listing {
    fn clone(&self) -> (r: Self)
        ensures
            r == *self,
    {
        Listing {
            name: self.name.clone(),
            price: self.price.clone(),
            url: self.url.clone(),
            source: self.source,
        }
    }
}

/// Index of the first `'?'` in `u`, or `u.len()` when there is none.
pub open spec fn query_start(u: Seq<char>) -> int
    decreases u.len(),
{
    if u.len() == 0 {
        0
    } else if u[0] == '?' {
        0
    } else {
        1 + query_start(u.drop_first())
    }
}

/// The URL with its query string (the first `'?'` and all that follows)
/// removed.
pub open spec fn strip_query(u: Seq<char>) -> Seq<char> {
    u.take(query_start(u))
}

/// The dedup identity of a listing model: source tag plus query-less URL.
pub open spec fn key_of(l: ListingModel) -> (Source, Seq<char>) {
    (l.source, strip_query(l.url))
}

/// A scan that saw no `'?'` before `j`, and a `'?'` (or the end) at `j`,
/// found `query_start`.
pub proof fn lemma_query_start_at(u: Seq<char>, j: int)
    requires
        0 <= j <= u.len(),
        forall|k: int| 0 <= k < j ==> u[k] != '?',
        j == u.len() || u[j] == '?',
    ensures
        query_start(u) == j,
    decreases j,
{
    if j > 0 {
        lemma_query_start_at(u.drop_first(), j - 1);
    }
}

/// The identity under which a listing is deduplicated, within one run and
/// across runs.
pub struct DedupKey {
    pub source: Source,
    pub url: String,
}

impl View for DedupKey {
    type V = (Source, Seq<char>);

    open spec fn view(&self) -> (Source, Seq<char>) {
        (self.source, self.url@)
    }
}

impl DeepView for DedupKey {
    type V = (Source, Seq<char>);

    open spec fn deep_view(&self) -> (Source, Seq<char>) {
        self.view()
    }
}

impl Clone for DedupKey {
    fn clone(&self) -> (r: Self)
        ensures
            r == *self,
    {
        DedupKey { source: self.source, url: self.url.clone() }
    }
}

/// Builds the dedup key of a listing: its source and its URL cut at the
/// first `'?'`.
pub fn dedup_key(l: &Listing) -> (k: DedupKey)
    ensures
        k@ == key_of(l@),
{
    let n = l.url.as_str().unicode_len();
    let mut j: usize = 0;
    while j < n && l.url.as_str().get_char(j) != '?'
        invariant
            n == l.url@.len(),
            j <= n,
            forall|k: int| 0 <= k < j ==> l.url@[k] != '?',
        decreases n - j,
    {
        j = j + 1;
    }
    proof {
        lemma_query_start_at(l.url@, j as int);
    }
    let cut = l.url.as_str().substring_char(0, j);
    proof {
        assert(cut@ =~= strip_query(l.url@));
    }
    DedupKey { source: l.source, url: String::from_str(cut) }
}

/// Whether two dedup keys denote the same identity.
pub fn key_eq(a: &DedupKey, b: &DedupKey) -> (r: bool)
    ensures
        r == (a@ == b@),
{
    a.source == b.source && a.url == b.url
}

} // verus!
