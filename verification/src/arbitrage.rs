//! Arbitrage matching and ranking.
//!
//! Each buy-side listing with a parseable price of at least fifty dollars is
//! matched against the pool of reference-sold listings: the match cluster
//! holds every sold listing scoring at least forty percent similarity whose
//! own price parses to more than fifty dollars.  A cluster of at least two
//! yields profit statistics against its mean; an opportunity is emitted only
//! when the margin exceeds ten percent and the profit exceeds twenty
//! dollars, and the accepted opportunities are ranked by profit, descending,
//! stably.  A smaller cluster is a silent skip, never an error.

use vstd::prelude::*;
use crate::fingerprint::{similarity_bp, similarity_score};
use crate::listing::{Listing, ListingModel, Source};
use crate::price::{parse_price, parse_price_spec, MAX_PRICE_CENTS};

verus! {

/// Minimum buy price considered, in cents: fifty dollars.
pub const MIN_BUY_CENTS: u64 = 5000;

/// Sold listings at or below this price, in cents, are treated as
/// accessories or parts and ignored.
pub const MIN_SOLD_CENTS: u64 = 5000;

/// Similarity threshold for cluster membership, in hundredths of a percent:
/// forty percent.
pub const MIN_SIMILARITY_BP: u32 = 4000;

/// Minimum cluster size for profit statistics to be meaningful.
pub const MIN_CLUSTER_SIZE: usize = 2;

/// Minimum accepted profit, in cents: twenty dollars.
pub const MIN_PROFIT_CENTS: u64 = 2000;

/// How many reference URLs an opportunity carries at most.
pub const MAX_SAMPLE_URLS: usize = 3;

/// The parsed price of a listing model, zero when absent; meaningful only
/// where a parseable price was required.
pub open spec fn price_of(l: ListingModel) -> u64 {
    match parse_price_spec(l.price) {
        Some(p) => p,
        None => 0,
    }
}

/// Whether a reference-sold listing belongs to the match cluster of `buy`:
/// similar enough, with a parseable price above the accessory floor.
pub open spec fn in_cluster(buy: ListingModel, s: ListingModel) -> bool {
    similarity_bp(buy.name, s.name) >= MIN_SIMILARITY_BP && match parse_price_spec(s.price) {
        Some(p) => p > MIN_SOLD_CENTS,
        None => false,
    }
}

/// The match cluster of `buy` within `sold`, in pool order.
pub open spec fn cluster_of(buy: ListingModel, sold: Seq<ListingModel>) -> Seq<ListingModel>
    decreases sold.len(),
{
    if sold.len() == 0 {
        Seq::empty()
    } else if in_cluster(buy, sold.last()) {
        cluster_of(buy, sold.drop_last()).push(sold.last())
    } else {
        cluster_of(buy, sold.drop_last())
    }
}

/// Sum of the cluster's parsed prices, in cents.
pub open spec fn sum_prices(c: Seq<ListingModel>) -> int
    decreases c.len(),
{
    if c.len() == 0 {
        0
    } else {
        sum_prices(c.drop_last()) + price_of(c.last())
    }
}

/// Smallest parsed price of the cluster; zero on an empty cluster.
pub open spec fn min_price(c: Seq<ListingModel>) -> u64
    decreases c.len(),
{
    if c.len() == 0 {
        0
    } else if c.len() == 1 {
        price_of(c[0])
    } else if price_of(c.last()) < min_price(c.drop_last()) {
        price_of(c.last())
    } else {
        min_price(c.drop_last())
    }
}

/// Largest parsed price of the cluster; zero on an empty cluster.
pub open spec fn max_price(c: Seq<ListingModel>) -> u64
    decreases c.len(),
{
    if c.len() == 0 {
        0
    } else if c.len() == 1 {
        price_of(c[0])
    } else if price_of(c.last()) > max_price(c.drop_last()) {
        price_of(c.last())
    } else {
        max_price(c.drop_last())
    }
}

/// The URLs of the cluster's listings, in cluster order.
pub open spec fn cluster_urls(c: Seq<ListingModel>) -> Seq<Seq<char>> {
    c.map_values(|m: ListingModel| m.url)
}

/// A ranked arbitrage opportunity: the buy listing's identity, its price,
/// and the profit statistics of its match cluster.  Prices are cents;
/// the margin is in hundredths of a percent.
pub struct ArbitrageOpportunity {
    pub buy_name: String,
    pub buy_source: Source,
    pub buy_price_cents: u64,
    pub buy_url: String,
    pub sold_mean_cents: u64,
    pub sold_count: usize,
    pub sold_min_cents: u64,
    pub sold_max_cents: u64,
    pub profit_cents: u64,
    pub margin_bp: u64,
    pub sample_urls: Vec<String>,
}

/// The mathematical value of an [`ArbitrageOpportunity`].
pub struct OpportunityModel {
    pub buy_name: Seq<char>,
    pub buy_source: Source,
    pub buy_price_cents: u64,
    pub buy_url: Seq<char>,
    pub sold_mean_cents: u64,
    pub sold_count: int,
    pub sold_min_cents: u64,
    pub sold_max_cents: u64,
    pub profit_cents: u64,
    pub margin_bp: u64,
    pub sample_urls: Seq<Seq<char>>,
}

impl View for ArbitrageOpportunity {
    type V = OpportunityModel;

    open spec fn view(&self) -> OpportunityModel {
        OpportunityModel {
            buy_name: self.buy_name@,
            buy_source: self.buy_source,
            buy_price_cents: self.buy_price_cents,
            buy_url: self.buy_url@,
            sold_mean_cents: self.sold_mean_cents,
            sold_count: self.sold_count as int,
            sold_min_cents: self.sold_min_cents,
            sold_max_cents: self.sold_max_cents,
            profit_cents: self.profit_cents,
            margin_bp: self.margin_bp,
            sample_urls: self.sample_urls.deep_view(),
        }
    }
}

impl DeepView for ArbitrageOpportunity {
    type V = OpportunityModel;

    open spec fn deep_view(&self) -> OpportunityModel {
        self.view()
    }
}

impl Clone for ArbitrageOpportunity {
    fn clone(&self) -> (r: Self)
        ensures
            r@ == self@,
    {
        let r = ArbitrageOpportunity {
            buy_name: self.buy_name.clone(),
            buy_source: self.buy_source,
            buy_price_cents: self.buy_price_cents,
            buy_url: self.buy_url.clone(),
            sold_mean_cents: self.sold_mean_cents,
            sold_count: self.sold_count,
            sold_min_cents: self.sold_min_cents,
            sold_max_cents: self.sold_max_cents,
            profit_cents: self.profit_cents,
            margin_bp: self.margin_bp,
            sample_urls: clone_strings(&self.sample_urls),
        };
        proof {
            assert(r.sample_urls.deep_view() =~= self.sample_urls.deep_view());
        }
        r
    }
}

/// Clones a vector of strings, element for element.
fn clone_strings(v: &Vec<String>) -> (r: Vec<String>)
    ensures
        r@ == v@,
{
    let n = v.len();
    let mut r: Vec<String> = Vec::new();
    let mut i: usize = 0;
    while i < n
        invariant
            n == v@.len(),
            i <= n,
            r@ == v@.take(i as int),
        decreases n - i,
    {
        r.push(v[i].clone());
        proof {
            assert(r@ =~= v@.take(i + 1));
        }
        i = i + 1;
    }
    proof {
        assert(v@.take(n as int) =~= v@);
    }
    r
}

/// Whether `buy` yields an opportunity against the pool `sold`: parseable
/// price at or above the buy floor, a cluster of at least two, and both
/// profit gates passed against the cluster's mean.
pub open spec fn accepts(buy: ListingModel, sold: Seq<ListingModel>) -> bool {
    match parse_price_spec(buy.price) {
        None => false,
        Some(bp) => {
            let c = cluster_of(buy, sold);
            bp >= MIN_BUY_CENTS && c.len() >= MIN_CLUSTER_SIZE && {
                let mean = sum_prices(c) / c.len() as int;
                let profit = mean - bp;
                10 * profit > bp && profit > MIN_PROFIT_CENTS
            }
        },
    }
}

/// The opportunity built for an accepted buy listing: cluster statistics,
/// profit against the mean, margin in hundredths of a percent, and up to
/// three sample reference URLs.
pub open spec fn opportunity_of(buy: ListingModel, sold: Seq<ListingModel>) -> OpportunityModel {
    let bp = price_of(buy);
    let c = cluster_of(buy, sold);
    let mean = sum_prices(c) / c.len() as int;
    let profit = mean - bp;
    OpportunityModel {
        buy_name: buy.name,
        buy_source: buy.source,
        buy_price_cents: bp,
        buy_url: buy.url,
        sold_mean_cents: mean as u64,
        sold_count: c.len() as int,
        sold_min_cents: min_price(c),
        sold_max_cents: max_price(c),
        profit_cents: profit as u64,
        margin_bp: (profit * 10000 / bp as int) as u64,
        sample_urls: cluster_urls(c).take(
            if c.len() < MAX_SAMPLE_URLS {
                c.len() as int
            } else {
                MAX_SAMPLE_URLS as int
            },
        ),
    }
}

/// The opportunities of the accepted buy listings, in buy order, unranked.
pub open spec fn opportunities_spec(
    buys: Seq<ListingModel>,
    sold: Seq<ListingModel>,
) -> Seq<OpportunityModel>
    decreases buys.len(),
{
    if buys.len() == 0 {
        Seq::empty()
    } else if accepts(buys.last(), sold) {
        opportunities_spec(buys.drop_last(), sold).push(opportunity_of(buys.last(), sold))
    } else {
        opportunities_spec(buys.drop_last(), sold)
    }
}

/// `x` inserted into `s` before the first strictly smaller profit, so that
/// equal profits keep their arrival order.
pub open spec fn insert_by_profit(
    x: OpportunityModel,
    s: Seq<OpportunityModel>,
) -> Seq<OpportunityModel>
    decreases s.len(),
{
    if s.len() == 0 {
        seq![x]
    } else if x.profit_cents > s[0].profit_cents {
        seq![x] + s
    } else {
        seq![s[0]] + insert_by_profit(x, s.drop_first())
    }
}

/// Stable insertion sort by profit, descending.
pub open spec fn sort_by_profit(s: Seq<OpportunityModel>) -> Seq<OpportunityModel>
    decreases s.len(),
{
    if s.len() == 0 {
        Seq::empty()
    } else {
        insert_by_profit(s.last(), sort_by_profit(s.drop_last()))
    }
}

/// What the matcher and ranker yield: the accepted opportunities, sorted by
/// profit descending, ties kept in buy order.
pub open spec fn ranked_opportunities(
    buys: Seq<ListingModel>,
    sold: Seq<ListingModel>,
) -> Seq<OpportunityModel> {
    sort_by_profit(opportunities_spec(buys, sold))
}

/// Every parsed price in a cluster is above the accessory floor and within
/// the representable range.
proof fn lemma_cluster_prices(buy: ListingModel, sold: Seq<ListingModel>)
    ensures
        forall|q: int|
            0 <= q < cluster_of(buy, sold).len() ==> MIN_SOLD_CENTS < price_of(
                #[trigger] cluster_of(buy, sold)[q],
            ) <= MAX_PRICE_CENTS,
    decreases sold.len(),
{
    if sold.len() > 0 {
        lemma_cluster_prices(buy, sold.drop_last());
        let c0 = cluster_of(buy, sold.drop_last());
        let c = cluster_of(buy, sold);
        if in_cluster(buy, sold.last()) {
            assert(c == c0.push(sold.last()));
            crate::price::lemma_parse_price_bound(sold.last().price);
            assert forall|q: int|
                0 <= q < c.len() implies MIN_SOLD_CENTS < price_of(#[trigger] c[q])
                <= MAX_PRICE_CENTS by {
                if q < c0.len() {
                    assert(c[q] == c0[q]);
                } else {
                    assert(c[q] == sold.last());
                }
            }
        }
    }
}

/// The sum of cluster prices is bounded by the cluster size times the
/// price cap.
proof fn lemma_sum_prices_bound(c: Seq<ListingModel>)
    requires
        forall|q: int| 0 <= q < c.len() ==> price_of(#[trigger] c[q]) <= MAX_PRICE_CENTS,
    ensures
        0 <= sum_prices(c),
        sum_prices(c) <= c.len() * MAX_PRICE_CENTS,
    decreases c.len(),
{
    if c.len() > 0 {
        lemma_sum_prices_bound(c.drop_last());
        assert(c.len() * MAX_PRICE_CENTS == (c.len() - 1) * MAX_PRICE_CENTS + MAX_PRICE_CENTS)
            by (nonlinear_arith);
    }
}

/// A mean of values bounded by the cap is bounded by the cap.
proof fn lemma_mean_bound(s: int, n: int)
    requires
        n >= 1,
        0 <= s <= n * MAX_PRICE_CENTS,
    ensures
        0 <= s / n <= MAX_PRICE_CENTS,
{
    assert(0 <= s / n <= MAX_PRICE_CENTS) by (nonlinear_arith)
        requires
            n >= 1,
            0 <= s <= n * MAX_PRICE_CENTS,
    ;
}

/// Inserting at the position found by a first-smaller-profit scan is the
/// specified insertion.
proof fn lemma_insert_by_profit_at(x: OpportunityModel, s: Seq<OpportunityModel>, j: int)
    requires
        0 <= j <= s.len(),
        forall|k: int| 0 <= k < j ==> !(x.profit_cents > (#[trigger] s[k]).profit_cents),
        j == s.len() || x.profit_cents > s[j].profit_cents,
    ensures
        insert_by_profit(x, s) == s.insert(j, x),
    decreases j,
{
    if j == 0 {
        if s.len() == 0 {
            assert(insert_by_profit(x, s) =~= s.insert(0, x));
        } else {
            assert(seq![x] + s =~= s.insert(0, x));
        }
    } else {
        lemma_insert_by_profit_at(x, s.drop_first(), j - 1);
        assert(seq![s[0]] + s.drop_first().insert(j - 1, x) =~= s.insert(j, x));
    }
}

/// Ranks opportunities by profit, descending, stably.
fn rank_opportunities(v: Vec<ArbitrageOpportunity>) -> (r: Vec<ArbitrageOpportunity>)
    ensures
        r.deep_view() == sort_by_profit(v.deep_view()),
{
    let n = v.len();
    let mut r: Vec<ArbitrageOpportunity> = Vec::new();
    let mut i: usize = 0;
    while i < n
        invariant
            n == v@.len(),
            i <= n,
            r.deep_view() == sort_by_profit(v.deep_view().take(i as int)),
            r@.len() <= i,
        decreases n - i,
    {
        let x = v[i].clone();
        let rl = r.len();
        let mut j: usize = 0;
        while j < rl && !(x.profit_cents > r[j].profit_cents)
            invariant
                rl == r@.len(),
                j <= rl,
                forall|k: int|
                    0 <= k < j ==> !(x@.profit_cents > (#[trigger] r.deep_view()[k]).profit_cents),
            decreases rl - j,
        {
            j = j + 1;
        }
        proof {
            lemma_insert_by_profit_at(x@, r.deep_view(), j as int);
            assert(v.deep_view().take(i + 1).drop_last() =~= v.deep_view().take(i as int));
            assert(v.deep_view().take(i + 1).last() == v.deep_view()[i as int]);
        }
        r.insert(j, x);
        proof {
            assert(r.deep_view() =~= sort_by_profit(v.deep_view().take(i + 1)));
        }
        i = i + 1;
    }
    proof {
        assert(v.deep_view().take(n as int) =~= v.deep_view());
    }
    r
}

/// The collected data of one match cluster: the parsed prices and URLs of
/// its members, their sum, and their extremes.
struct ClusterData {
    prices: Vec<u64>,
    urls: Vec<String>,
    sum: u128,
    mn: u64,
    mx: u64,
}

/// Builds the match cluster of one buy listing against the reference-sold
/// pool, collecting prices, URLs, sum and extremes.
#[verifier::rlimit(80)]
fn build_cluster(buy: &Listing, sold: &Vec<Listing>) -> (cd: ClusterData)
    ensures
        ({
            let c = cluster_of(buy@, sold.deep_view());
            &&& cd.prices@.len() == c.len()
            &&& cd.prices@.len() == cd.urls@.len()
            &&& cd.urls.deep_view() == cluster_urls(c)
            &&& forall|q: int|
                0 <= q < cd.prices@.len() ==> #[trigger] cd.prices@[q] == price_of(c[q])
            &&& forall|q: int|
                0 <= q < cd.prices@.len() ==> #[trigger] cd.prices@[q] <= MAX_PRICE_CENTS
            &&& cd.sum == sum_prices(c)
            &&& cd.sum <= c.len() * MAX_PRICE_CENTS
            &&& c.len() > 0 ==> cd.mn == min_price(c) && cd.mx == max_price(c)
        }),
{
    let ghost b = buy@;
    let ghost sdv = sold.deep_view();
    let ns = sold.len();
    let mut prices: Vec<u64> = Vec::new();
    let mut urls: Vec<String> = Vec::new();
    let mut sum: u128 = 0;
    let mut mn: u64 = 0;
    let mut mx: u64 = 0;
    let mut j: usize = 0;
    proof {
        assert(cluster_of(b, sdv.take(0)) =~= Seq::<ListingModel>::empty());
    }
    while j < ns
        invariant
            ns == sold@.len(),
            sdv == sold.deep_view(),
            b == buy@,
            j <= ns,
            prices@.len() == cluster_of(b, sdv.take(j as int)).len(),
            prices@.len() == urls@.len(),
            urls.deep_view() == cluster_urls(cluster_of(b, sdv.take(j as int))),
            forall|q: int|
                0 <= q < prices@.len() ==> #[trigger] prices@[q] == price_of(
                    cluster_of(b, sdv.take(j as int))[q],
                ),
            forall|q: int| 0 <= q < prices@.len() ==> #[trigger] prices@[q] <= MAX_PRICE_CENTS,
            sum == sum_prices(cluster_of(b, sdv.take(j as int))),
            sum <= prices@.len() * MAX_PRICE_CENTS,
            prices@.len() > 0 ==> mn == min_price(cluster_of(b, sdv.take(j as int))) && mx
                == max_price(cluster_of(b, sdv.take(j as int))),
        decreases ns - j,
    {
        let ghost c_pre = cluster_of(b, sdv.take(j as int));
        let s = &sold[j];
        let score = similarity_score(buy, s);
        let mut joins: bool = false;
        let mut sp: u64 = 0;
        if score >= MIN_SIMILARITY_BP {
            if let Some(spv) = parse_price(s.price.as_str()) {
                if spv > MIN_SOLD_CENTS {
                    joins = true;
                    sp = spv;
                }
            }
        }
        proof {
            assert(sdv.take(j + 1).drop_last() =~= sdv.take(j as int));
            assert(sdv.take(j + 1).last() == sdv[j as int]);
            assert(joins == in_cluster(b, sdv[j as int]));
            crate::price::lemma_parse_price_bound(sdv[j as int].price);
        }
        if joins {
            if prices.len() == 0 {
                mn = sp;
                mx = sp;
            } else {
                if sp < mn {
                    mn = sp;
                }
                if sp > mx {
                    mx = sp;
                }
            }
            sum = sum + sp as u128;
            prices.push(sp);
            urls.push(s.url.clone());
            proof {
                let c_post = cluster_of(b, sdv.take(j + 1));
                assert(c_post == c_pre.push(sdv[j as int]));
                assert(c_post.drop_last() =~= c_pre);
                assert(urls.deep_view() =~= cluster_urls(c_pre).push(sdv[j as int].url));
                assert(cluster_urls(c_post) =~= cluster_urls(c_pre).push(sdv[j as int].url));
                assert(sum <= prices@.len() * MAX_PRICE_CENTS) by {
                    assert((prices@.len() as int) * MAX_PRICE_CENTS == (prices@.len() - 1)
                        * MAX_PRICE_CENTS + MAX_PRICE_CENTS) by (nonlinear_arith);
                }
            }
        } else {
            proof {
                assert(cluster_of(b, sdv.take(j + 1)) == c_pre);
            }
        }
        j = j + 1;
    }
    proof {
        assert(sdv.take(ns as int) =~= sdv);
    }
    ClusterData { prices, urls, sum, mn, mx }
}

/// Matches one buy-side listing against the reference-sold pool: builds its
/// cluster, applies the acceptance gates, and returns its opportunity, or
/// nothing when any gate fails.
#[verifier::rlimit(80)]
pub fn opportunity_for(buy: &Listing, sold: &Vec<Listing>) -> (r: Option<ArbitrageOpportunity>)
    ensures
        match r {
            Some(o) => accepts(buy@, sold.deep_view()) && o@ == opportunity_of(
                buy@,
                sold.deep_view(),
            ),
            None => !accepts(buy@, sold.deep_view()),
        },
{
    let ghost b = buy@;
    let ghost sdv = sold.deep_view();
    let parsed = parse_price(buy.price.as_str());
    if parsed.is_none() {
        return None;
    }
    let bp = parsed.unwrap();
    if bp < MIN_BUY_CENTS {
        return None;
    }
    let cd = build_cluster(buy, sold);
    let prices = cd.prices;
    let urls = cd.urls;
    let sum = cd.sum;
    let mn = cd.mn;
    let mx = cd.mx;
    let ghost c = cluster_of(b, sdv);
    let count = prices.len();
    if count < MIN_CLUSTER_SIZE {
        return None;
    }
    proof {
        lemma_sum_prices_bound(c);
        lemma_mean_bound(sum_prices(c), c.len() as int);
    }
    let mean: u64 = (sum / (count as u128)) as u64;
    proof {
        assert(mean == sum_prices(c) / c.len() as int);
    }
    if mean <= bp {
        return None;
    }
    let profit: u64 = mean - bp;
    if profit <= MIN_PROFIT_CENTS {
        return None;
    }
    if 10 * profit <= bp {
        return None;
    }
    // All gates passed: build the opportunity.
    let margin: u64 = ((profit as u128) * 10000 / (bp as u128)) as u64;
    proof {
        assert((profit as int) * 10000 / (bp as int) <= (profit as int) * 2) by (nonlinear_arith)
            requires
                bp >= 5000,
                profit >= 0,
        ;
    }
    let take_n = if count < MAX_SAMPLE_URLS {
        count
    } else {
        MAX_SAMPLE_URLS
    };
    let mut samples: Vec<String> = Vec::new();
    let mut t: usize = 0;
    while t < take_n
        invariant
            take_n <= urls@.len(),
            t <= take_n,
            samples@ == urls@.take(t as int),
        decreases take_n - t,
    {
        samples.push(urls[t].clone());
        proof {
            assert(samples@ =~= urls@.take(t + 1));
        }
        t = t + 1;
    }
    let opp = ArbitrageOpportunity {
        buy_name: buy.name.clone(),
        buy_source: buy.source,
        buy_price_cents: bp,
        buy_url: buy.url.clone(),
        sold_mean_cents: mean,
        sold_count: count,
        sold_min_cents: mn,
        sold_max_cents: mx,
        profit_cents: profit,
        margin_bp: margin,
        sample_urls: samples,
    };
    proof {
        assert(accepts(b, sdv));
        assert(opp.sample_urls.deep_view() =~= urls.deep_view().take(take_n as int));
        assert(opp@.sample_urls =~= opportunity_of(b, sdv).sample_urls);
        assert(opp@ == opportunity_of(b, sdv));
    }
    Some(opp)
}

/// A listing annotated with the profit statistics of its match cluster
/// against the reference-sold pool; every statistic is absent when the
/// cluster is below the evidentiary floor, and profit and margin are absent
/// when the listing's own price does not parse — an unusable price is never
/// defaulted to zero.
pub struct ProductWithComparison {
    pub name: String,
    pub price: String,
    pub price_cents: Option<u64>,
    pub url: String,
    pub source: Source,
    pub sold_mean_cents: Option<u64>,
    pub sold_count: Option<usize>,
    pub sold_min_cents: Option<u64>,
    pub sold_max_cents: Option<u64>,
    pub profit_cents: Option<i64>,
    pub margin_bp: Option<i128>,
}

/// The mathematical value of a [`ProductWithComparison`].
pub struct ComparisonModel {
    pub name: Seq<char>,
    pub price: Seq<char>,
    pub price_cents: Option<u64>,
    pub url: Seq<char>,
    pub source: Source,
    pub sold_mean_cents: Option<u64>,
    pub sold_count: Option<int>,
    pub sold_min_cents: Option<u64>,
    pub sold_max_cents: Option<u64>,
    pub profit_cents: Option<i64>,
    pub margin_bp: Option<i128>,
}

impl View for ProductWithComparison {
    type V = ComparisonModel;

    open spec fn view(&self) -> ComparisonModel {
        ComparisonModel {
            name: self.name@,
            price: self.price@,
            price_cents: self.price_cents,
            url: self.url@,
            source: self.source,
            sold_mean_cents: self.sold_mean_cents,
            sold_count: match self.sold_count {
                Some(n) => Some(n as int),
                None => None,
            },
            sold_min_cents: self.sold_min_cents,
            sold_max_cents: self.sold_max_cents,
            profit_cents: self.profit_cents,
            margin_bp: self.margin_bp,
        }
    }
}

impl DeepView for ProductWithComparison {
    type V = ComparisonModel;

    open spec fn deep_view(&self) -> ComparisonModel {
        self.view()
    }
}

/// The margin, in hundredths of a percent, of `profit` cents over a
/// positive `price` in cents, rounded toward zero.
pub open spec fn margin_of(profit: int, price: int) -> int {
    if profit >= 0 {
        profit * 10000 / price
    } else {
        -((-profit) * 10000 / price)
    }
}

/// The comparison record of one listing against the reference-sold pool:
/// cluster statistics when the cluster reaches the evidentiary floor,
/// profit and margin additionally requiring a parsed (and, for the margin,
/// positive) own price.
pub open spec fn comparison_of(l: ListingModel, sold: Seq<ListingModel>) -> ComparisonModel {
    let c = cluster_of(l, sold);
    let pc = parse_price_spec(l.price);
    if c.len() >= MIN_CLUSTER_SIZE {
        let mean = sum_prices(c) / c.len() as int;
        ComparisonModel {
            name: l.name,
            price: l.price,
            price_cents: pc,
            url: l.url,
            source: l.source,
            sold_mean_cents: Some(mean as u64),
            sold_count: Some(c.len() as int),
            sold_min_cents: Some(min_price(c)),
            sold_max_cents: Some(max_price(c)),
            profit_cents: match pc {
                Some(p) => Some((mean - p) as i64),
                None => None,
            },
            margin_bp: match pc {
                Some(p) => if p > 0 {
                    Some(margin_of(mean - p, p as int) as i128)
                } else {
                    None
                },
                None => None,
            },
        }
    } else {
        ComparisonModel {
            name: l.name,
            price: l.price,
            price_cents: pc,
            url: l.url,
            source: l.source,
            sold_mean_cents: None,
            sold_count: None,
            sold_min_cents: None,
            sold_max_cents: None,
            profit_cents: None,
            margin_bp: None,
        }
    }
}

/// The comparison records of a batch, in batch order.
pub open spec fn comparisons_spec(
    buys: Seq<ListingModel>,
    sold: Seq<ListingModel>,
) -> Seq<ComparisonModel>
    decreases buys.len(),
{
    if buys.len() == 0 {
        Seq::empty()
    } else {
        comparisons_spec(buys.drop_last(), sold).push(comparison_of(buys.last(), sold))
    }
}

/// Builds the comparison record of one listing against the reference-sold
/// pool.
#[verifier::rlimit(80)]
fn comparison_for(buy: &Listing, sold: &Vec<Listing>) -> (r: ProductWithComparison)
    ensures
        r@ == comparison_of(buy@, sold.deep_view()),
{
    let ghost b = buy@;
    let ghost sdv = sold.deep_view();
    let parsed = parse_price(buy.price.as_str());
    let cd = build_cluster(buy, sold);
    let ghost c = cluster_of(b, sdv);
    let count = cd.prices.len();
    if count < MIN_CLUSTER_SIZE {
        return ProductWithComparison {
            name: buy.name.clone(),
            price: buy.price.clone(),
            price_cents: parsed,
            url: buy.url.clone(),
            source: buy.source,
            sold_mean_cents: None,
            sold_count: None,
            sold_min_cents: None,
            sold_max_cents: None,
            profit_cents: None,
            margin_bp: None,
        };
    }
    proof {
        lemma_sum_prices_bound(c);
        lemma_mean_bound(sum_prices(c), c.len() as int);
    }
    let mean: u64 = (cd.sum / (count as u128)) as u64;
    proof {
        assert(mean == sum_prices(c) / c.len() as int);
        crate::price::lemma_parse_price_bound(b.price);
    }
    let mut profit: Option<i64> = None;
    let mut margin: Option<i128> = None;
    if let Some(p) = parsed {
        if mean >= p {
            let pr: u64 = mean - p;
            profit = Some(pr as i64);
            if p > 0 {
                margin = Some(((pr as u128) * 10000 / (p as u128)) as i128);
                proof {
                    assert((pr as int) * 10000 / (p as int) >= 0) by (nonlinear_arith)
                        requires
                            pr >= 0,
                            p >= 1,
                    ;
                    assert((pr as int) * 10000 / (p as int) <= (pr as int) * 10000)
                        by (nonlinear_arith)
                        requires
                            pr >= 0,
                            p >= 1,
                    ;
                }
            }
        } else {
            let pr: u64 = p - mean;
            profit = Some(-(pr as i64));
            if p > 0 {
                margin = Some(-(((pr as u128) * 10000 / (p as u128)) as i128));
                proof {
                    assert((pr as int) * 10000 / (p as int) >= 0) by (nonlinear_arith)
                        requires
                            pr >= 0,
                            p >= 1,
                    ;
                    assert((pr as int) * 10000 / (p as int) <= (pr as int) * 10000)
                        by (nonlinear_arith)
                        requires
                            pr >= 0,
                            p >= 1,
                    ;
                }
            }
        }
    }
    let r = ProductWithComparison {
        name: buy.name.clone(),
        price: buy.price.clone(),
        price_cents: parsed,
        url: buy.url.clone(),
        source: buy.source,
        sold_mean_cents: Some(mean),
        sold_count: Some(count),
        sold_min_cents: Some(cd.mn),
        sold_max_cents: Some(cd.mx),
        profit_cents: profit,
        margin_bp: margin,
    };
    proof {
        assert(r@ == comparison_of(b, sdv));
    }
    r
}

/// Annotates every listing of a batch with the profit statistics of its
/// match cluster against the reference-sold pool, in batch order.
pub fn create_products_with_comparison(buys: &Vec<Listing>, sold: &Vec<Listing>) -> (r: Vec<
    ProductWithComparison,
>)
    ensures
        r.deep_view() == comparisons_spec(buys.deep_view(), sold.deep_view()),
{
    let ghost bdv = buys.deep_view();
    let ghost sdv = sold.deep_view();
    let nb = buys.len();
    let mut out: Vec<ProductWithComparison> = Vec::new();
    let mut i: usize = 0;
    while i < nb
        invariant
            nb == buys@.len(),
            bdv == buys.deep_view(),
            sdv == sold.deep_view(),
            i <= nb,
            out.deep_view() == comparisons_spec(bdv.take(i as int), sdv),
        decreases nb - i,
    {
        proof {
            assert(bdv.take(i + 1).drop_last() =~= bdv.take(i as int));
            assert(bdv.take(i + 1).last() == bdv[i as int]);
        }
        let pc = comparison_for(&buys[i], sold);
        out.push(pc);
        proof {
            assert(out.deep_view() =~= comparisons_spec(bdv.take(i + 1), sdv));
        }
        i = i + 1;
    }
    proof {
        assert(bdv.take(nb as int) =~= bdv);
    }
    out
}

/// The matcher and ranker: pairs each buy-side listing against the
/// reference-sold pool, computes profit statistics over each match cluster,
/// applies the acceptance gates, and returns the accepted opportunities
/// sorted by profit descending.
pub fn find_arbitrage_opportunities(buys: &Vec<Listing>, sold: &Vec<Listing>) -> (r: Vec<
    ArbitrageOpportunity,
>)
    ensures
        r.deep_view() == ranked_opportunities(buys.deep_view(), sold.deep_view()),
{
    let ghost bdv = buys.deep_view();
    let ghost sdv = sold.deep_view();
    let nb = buys.len();
    let mut accepted: Vec<ArbitrageOpportunity> = Vec::new();
    let mut i: usize = 0;
    while i < nb
        invariant
            nb == buys@.len(),
            bdv == buys.deep_view(),
            sdv == sold.deep_view(),
            i <= nb,
            accepted.deep_view() == opportunities_spec(bdv.take(i as int), sdv),
        decreases nb - i,
    {
        proof {
            assert(bdv.take(i + 1).drop_last() =~= bdv.take(i as int));
            assert(bdv.take(i + 1).last() == bdv[i as int]);
        }
        if let Some(o) = opportunity_for(&buys[i], sold) {
            accepted.push(o);
        }
        proof {
            assert(accepted.deep_view() =~= opportunities_spec(bdv.take(i + 1), sdv));
        }
        i = i + 1;
    }
    proof {
        assert(bdv.take(nb as int) =~= bdv);
    }
    rank_opportunities(accepted)
}

/// An opportunity that clears every acceptance gate: it rests on at least
/// two reference-sold listings, its buy price is parsed and at or above the
/// floor, its profit exceeds twenty dollars and its margin exceeds ten
/// percent of the buy price.
pub open spec fn well_founded(o: OpportunityModel) -> bool {
    &&& o.sold_count >= MIN_CLUSTER_SIZE
    &&& o.buy_price_cents >= MIN_BUY_CENTS
    &&& o.profit_cents > MIN_PROFIT_CENTS
    &&& 10 * o.profit_cents > o.buy_price_cents
}

/// Every element of `s` is well founded.
pub open spec fn all_well_founded(s: Seq<OpportunityModel>) -> bool {
    forall|q: int| 0 <= q < s.len() ==> well_founded(#[trigger] s[q])
}

/// An accepted buy listing's opportunity is well founded.
proof fn lemma_opportunity_well_founded(buy: ListingModel, sold: Seq<ListingModel>)
    requires
        accepts(buy, sold),
    ensures
        well_founded(opportunity_of(buy, sold)),
{
    let c = cluster_of(buy, sold);
    lemma_cluster_prices(buy, sold);
    lemma_sum_prices_bound(c);
    lemma_mean_bound(sum_prices(c), c.len() as int);
    crate::price::lemma_parse_price_bound(buy.price);
}

/// Insertion keeps every element, so it keeps well-foundedness.
proof fn lemma_insert_by_profit_well_founded(x: OpportunityModel, s: Seq<OpportunityModel>)
    requires
        well_founded(x),
        all_well_founded(s),
    ensures
        all_well_founded(insert_by_profit(x, s)),
    decreases s.len(),
{
    if s.len() == 0 {
    } else if x.profit_cents > s[0].profit_cents {
        assert forall|q: int|
            0 <= q < (seq![x] + s).len() implies well_founded(#[trigger] (seq![x] + s)[q]) by {
            if q > 0 {
                assert((seq![x] + s)[q] == s[q - 1]);
            }
        }
    } else {
        assert forall|q: int| 0 <= q < s.drop_first().len() implies well_founded(
            #[trigger] s.drop_first()[q],
        ) by {
            assert(s.drop_first()[q] == s[q + 1]);
        }
        lemma_insert_by_profit_well_founded(x, s.drop_first());
        let t = seq![s[0]] + insert_by_profit(x, s.drop_first());
        assert forall|q: int| 0 <= q < t.len() implies well_founded(#[trigger] t[q]) by {
            if q > 0 {
                assert(t[q] == insert_by_profit(x, s.drop_first())[q - 1]);
            }
        }
    }
}

/// Sorting keeps every element, so it keeps well-foundedness.
proof fn lemma_sort_by_profit_well_founded(s: Seq<OpportunityModel>)
    requires
        all_well_founded(s),
    ensures
        all_well_founded(sort_by_profit(s)),
    decreases s.len(),
{
    if s.len() > 0 {
        assert forall|q: int| 0 <= q < s.drop_last().len() implies well_founded(
            #[trigger] s.drop_last()[q],
        ) by {
            assert(s.drop_last()[q] == s[q]);
        }
        lemma_sort_by_profit_well_founded(s.drop_last());
        lemma_insert_by_profit_well_founded(s.last(), sort_by_profit(s.drop_last()));
    }
}

/// All accepted opportunities are well founded.
proof fn lemma_opportunities_spec_well_founded(buys: Seq<ListingModel>, sold: Seq<ListingModel>)
    ensures
        all_well_founded(opportunities_spec(buys, sold)),
    decreases buys.len(),
{
    if buys.len() > 0 {
        lemma_opportunities_spec_well_founded(buys.drop_last(), sold);
        if accepts(buys.last(), sold) {
            lemma_opportunity_well_founded(buys.last(), sold);
            let t = opportunities_spec(buys.drop_last(), sold).push(
                opportunity_of(buys.last(), sold),
            );
            assert forall|q: int| 0 <= q < t.len() implies well_founded(#[trigger] t[q]) by {
                if q < t.len() - 1 {
                    assert(t[q] == opportunities_spec(buys.drop_last(), sold)[q]);
                }
            }
        }
    }
}

/// The evidentiary floor and the acceptance gates, as a law: whatever the
/// inputs, every ranked opportunity rests on a cluster of at least two
/// reference-sold listings — a single similar sold item never produces one
/// — and clears the buy-price floor, the twenty-dollar profit gate and the
/// ten-percent margin gate.
pub proof fn lemma_ranked_well_founded(buys: Seq<ListingModel>, sold: Seq<ListingModel>)
    ensures
        all_well_founded(ranked_opportunities(buys, sold)),
{
    lemma_opportunities_spec_well_founded(buys, sold);
    lemma_sort_by_profit_well_founded(opportunities_spec(buys, sold));
}

/// `s` is ordered by profit, descending.
pub open spec fn sorted_by_profit_desc(s: Seq<OpportunityModel>) -> bool {
    forall|i: int, j: int|
        0 <= i < j < s.len() ==> (#[trigger] s[i]).profit_cents >= (#[trigger] s[j]).profit_cents
}

/// Every element of an insertion is the inserted element or an original one.
proof fn lemma_insert_by_profit_elements(x: OpportunityModel, s: Seq<OpportunityModel>)
    ensures
        insert_by_profit(x, s).len() == s.len() + 1,
        forall|q: int|
            0 <= q < insert_by_profit(x, s).len() ==> (#[trigger] insert_by_profit(x, s)[q]) == x
                || s.contains(insert_by_profit(x, s)[q]),
    decreases s.len(),
{
    if s.len() == 0 {
    } else if x.profit_cents > s[0].profit_cents {
        assert forall|q: int| 0 <= q < (seq![x] + s).len() implies (#[trigger] (seq![x] + s)[q])
            == x || s.contains((seq![x] + s)[q]) by {
            if q > 0 {
                assert((seq![x] + s)[q] == s[q - 1]);
            }
        }
    } else {
        lemma_insert_by_profit_elements(x, s.drop_first());
        let t = seq![s[0]] + insert_by_profit(x, s.drop_first());
        assert forall|q: int| 0 <= q < t.len() implies (#[trigger] t[q]) == x || s.contains(
            t[q],
        ) by {
            if q > 0 {
                let e = insert_by_profit(x, s.drop_first())[q - 1];
                assert(t[q] == e);
                if e != x {
                    let w = choose|w: int| 0 <= w < s.drop_first().len() && s.drop_first()[w] == e;
                    assert(s[w + 1] == e);
                }
            }
        }
    }
}

/// Inserting into a descending sequence keeps it descending.
proof fn lemma_insert_by_profit_sorted(x: OpportunityModel, s: Seq<OpportunityModel>)
    requires
        sorted_by_profit_desc(s),
    ensures
        sorted_by_profit_desc(insert_by_profit(x, s)),
    decreases s.len(),
{
    if s.len() == 0 {
    } else if x.profit_cents > s[0].profit_cents {
        let t = seq![x] + s;
        assert forall|i: int, j: int| 0 <= i < j < t.len() implies (#[trigger] t[i]).profit_cents
            >= (#[trigger] t[j]).profit_cents by {
            if i > 0 {
                assert(t[i] == s[i - 1]);
                assert(t[j] == s[j - 1]);
            } else {
                assert(t[j] == s[j - 1]);
                if j > 1 {
                    assert(s[0].profit_cents >= s[j - 1].profit_cents);
                }
            }
        }
    } else {
        assert forall|i: int, j: int|
            0 <= i < j < s.drop_first().len() implies (#[trigger] s.drop_first()[i]).profit_cents
            >= (#[trigger] s.drop_first()[j]).profit_cents by {
            assert(s.drop_first()[i] == s[i + 1]);
            assert(s.drop_first()[j] == s[j + 1]);
        }
        lemma_insert_by_profit_sorted(x, s.drop_first());
        lemma_insert_by_profit_elements(x, s.drop_first());
        let ins = insert_by_profit(x, s.drop_first());
        let t = seq![s[0]] + ins;
        assert forall|i: int, j: int| 0 <= i < j < t.len() implies (#[trigger] t[i]).profit_cents
            >= (#[trigger] t[j]).profit_cents by {
            if i > 0 {
                assert(t[i] == ins[i - 1]);
                assert(t[j] == ins[j - 1]);
            } else {
                let e = ins[j - 1];
                assert(t[j] == e);
                assert(e == x || s.drop_first().contains(e));
                if e == x {
                    assert(s[0].profit_cents >= x.profit_cents);
                } else {
                    let w = choose|w: int|
                        0 <= w < s.drop_first().len() && s.drop_first()[w] == e;
                    assert(s.drop_first()[w] == s[w + 1]);
                    assert(s[0].profit_cents >= s[w + 1].profit_cents);
                }
            }
        }
    }
}

/// The ranking law: whatever the inputs, the emitted opportunities come
/// ordered by profit, descending.
pub proof fn lemma_ranked_sorted(buys: Seq<ListingModel>, sold: Seq<ListingModel>)
    ensures
        sorted_by_profit_desc(ranked_opportunities(buys, sold)),
{
    lemma_sort_by_profit_sorted(opportunities_spec(buys, sold));
}

/// Insertion sort produces a descending sequence.
proof fn lemma_sort_by_profit_sorted(s: Seq<OpportunityModel>)
    ensures
        sorted_by_profit_desc(sort_by_profit(s)),
    decreases s.len(),
{
    if s.len() > 0 {
        lemma_sort_by_profit_sorted(s.drop_last());
        lemma_insert_by_profit_sorted(s.last(), sort_by_profit(s.drop_last()));
    }
}

} // verus!
