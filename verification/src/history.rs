//! The run-history snapshot store.
//!
//! Each scan cycle produces one immutable [`RunSnapshot`]; the history keeps
//! the most recent [`MAX_HISTORY_RUNS`] of them in chronological order,
//! dropping the oldest first when the bound is exceeded.  The [`Aggregate`]
//! is the whole persisted document: the latest per-source listings and
//! opportunities, the cumulative counters, and the bounded history.

use vstd::prelude::*;
use crate::arbitrage::{
    comparisons_spec, ranked_opportunities, ArbitrageOpportunity, ComparisonModel,
    OpportunityModel, ProductWithComparison, create_products_with_comparison,
    find_arbitrage_opportunities,
};
use crate::listing::{Listing, ListingModel};

verus! {

/// How many run snapshots the history retains.
pub const MAX_HISTORY_RUNS: usize = 20;

/// The immutable record of one scan cycle.
pub struct RunSnapshot {
    pub run_id: u32,
    pub timestamp: String,
    pub buy_products: Vec<ProductWithComparison>,
    pub resale_products: Vec<ProductWithComparison>,
    pub sold_products: Vec<Listing>,
    pub opportunities: Vec<ArbitrageOpportunity>,
    pub total_buy: usize,
    pub total_resale: usize,
    pub total_sold: usize,
    pub best_opportunity: Option<ArbitrageOpportunity>,
}

/// The mathematical value of a [`RunSnapshot`].
pub struct SnapshotModel {
    pub run_id: u32,
    pub timestamp: Seq<char>,
    pub buy_products: Seq<ComparisonModel>,
    pub resale_products: Seq<ComparisonModel>,
    pub sold_products: Seq<ListingModel>,
    pub opportunities: Seq<OpportunityModel>,
    pub total_buy: int,
    pub total_resale: int,
    pub total_sold: int,
    pub best_opportunity: Option<OpportunityModel>,
}

impl View for RunSnapshot {
    type V = SnapshotModel;

    open spec fn view(&self) -> SnapshotModel {
        SnapshotModel {
            run_id: self.run_id,
            timestamp: self.timestamp@,
            buy_products: self.buy_products.deep_view(),
            resale_products: self.resale_products.deep_view(),
            sold_products: self.sold_products.deep_view(),
            opportunities: self.opportunities.deep_view(),
            total_buy: self.total_buy as int,
            total_resale: self.total_resale as int,
            total_sold: self.total_sold as int,
            best_opportunity: match self.best_opportunity {
                Some(ref o) => Some(o@),
                None => None,
            },
        }
    }
}

impl DeepView for RunSnapshot {
    type V = SnapshotModel;

    open spec fn deep_view(&self) -> SnapshotModel {
        self.view()
    }
}

/// What one scan cycle's snapshot holds: the comparison records of both
/// non-reference sources, the reference-sold pool, the ranked
/// opportunities, the three batch totals, and the top opportunity.
pub open spec fn snapshot_spec(
    run_id: u32,
    timestamp: Seq<char>,
    buys: Seq<ListingModel>,
    resale: Seq<ListingModel>,
    sold: Seq<ListingModel>,
) -> SnapshotModel {
    let opps = ranked_opportunities(buys, sold);
    SnapshotModel {
        run_id: run_id,
        timestamp: timestamp,
        buy_products: comparisons_spec(buys, sold),
        resale_products: comparisons_spec(resale, sold),
        sold_products: sold,
        opportunities: opps,
        total_buy: buys.len() as int,
        total_resale: resale.len() as int,
        total_sold: sold.len() as int,
        best_opportunity: if opps.len() > 0 {
            Some(opps[0])
        } else {
            None
        },
    }
}

/// Assembles the snapshot of one completed scan cycle from the three
/// deduplicated batches.
pub fn build_run_snapshot(
    run_id: u32,
    timestamp: String,
    buys: &Vec<Listing>,
    resale: &Vec<Listing>,
    sold: &Vec<Listing>,
) -> (s: RunSnapshot)
    ensures
        s@ == snapshot_spec(
            run_id,
            timestamp@,
            buys.deep_view(),
            resale.deep_view(),
            sold.deep_view(),
        ),
{
    let opportunities = find_arbitrage_opportunities(buys, sold);
    let best: Option<ArbitrageOpportunity> = if opportunities.len() > 0 {
        Some(opportunities[0].clone())
    } else {
        None
    };
    RunSnapshot {
        run_id,
        timestamp,
        buy_products: create_products_with_comparison(buys, sold),
        resale_products: create_products_with_comparison(resale, sold),
        sold_products: clone_listings(sold),
        opportunities,
        total_buy: buys.len(),
        total_resale: resale.len(),
        total_sold: sold.len(),
        best_opportunity: best,
    }
}

/// Clones the reference-sold batch for the snapshot.
fn clone_listings(sold: &Vec<Listing>) -> (r: Vec<Listing>)
    ensures
        r.deep_view() == sold.deep_view(),
{
    let n = sold.len();
    let mut r: Vec<Listing> = Vec::new();
    let mut i: usize = 0;
    while i < n
        invariant
            n == sold@.len(),
            i <= n,
            r@ == sold@.take(i as int),
        decreases n - i,
    {
        r.push(sold[i].clone());
        proof {
            assert(r@ =~= sold@.take(i + 1));
        }
        i = i + 1;
    }
    proof {
        assert(sold@.take(n as int) =~= sold@);
        assert(r.deep_view() =~= sold.deep_view());
    }
    r
}

/// The history after appending one snapshot: the new snapshot joins at the
/// end, and the oldest entries are dropped until the bound holds.
pub open spec fn appended(h: Seq<SnapshotModel>, s: SnapshotModel) -> Seq<SnapshotModel> {
    let all = h.push(s);
    if all.len() <= MAX_HISTORY_RUNS {
        all
    } else {
        all.skip(all.len() - MAX_HISTORY_RUNS as int)
    }
}

/// The bounded, chronologically ordered store of run snapshots.
pub struct HistoryLog {
    pub runs: Vec<RunSnapshot>,
}

impl View for HistoryLog {
    type V = Seq<SnapshotModel>;

    open spec fn view(&self) -> Seq<SnapshotModel> {
        self.runs.deep_view()
    }
}

impl HistoryLog {
    /// An empty history, the fallback when no persisted aggregate exists.
    pub fn new() -> (h: HistoryLog)
        ensures
            h@ == Seq::<SnapshotModel>::empty(),
    {
        let h = HistoryLog { runs: Vec::new() };
        proof {
            assert(h@ =~= Seq::<SnapshotModel>::empty());
        }
        h
    }

    /// How many snapshots are held.
    pub fn len(&self) -> (n: usize)
        ensures
            n == self@.len(),
    {
        self.runs.len()
    }

    /// Appends one run's snapshot, dropping the oldest entries until the
    /// retention bound holds again.
    pub fn push_run(&mut self, s: RunSnapshot)
        ensures
            final(self)@ == appended(old(self)@, s@),
            final(self)@.len() <= MAX_HISTORY_RUNS || final(self)@.len() == old(self)@.len() + 1,
    {
        self.runs.push(s);
        let ghost all = self.runs.deep_view();
        proof {
            assert(all =~= old(self)@.push(s@));
            assert(all.skip(0) =~= all);
        }
        while self.runs.len() > MAX_HISTORY_RUNS
            invariant
                self.runs@.len() <= all.len(),
                self.runs.deep_view() == all.skip(all.len() - self.runs@.len()),
                all.len() > MAX_HISTORY_RUNS ==> self.runs@.len() >= MAX_HISTORY_RUNS,
                all.len() <= MAX_HISTORY_RUNS ==> self.runs@.len() == all.len(),
            decreases self.runs@.len(),
        {
            let ghost pre = self.runs.deep_view();
            self.runs.remove(0);
            proof {
                assert(self.runs.deep_view() =~= pre.drop_first());
                assert(pre.drop_first() =~= all.skip(all.len() - pre.len() + 1));
            }
        }
    }
}

/// The whole persisted document: last update stamp, cumulative run
/// counter, the latest per-source listings and opportunities, the count of
/// identities ever tracked, and the bounded run history.
pub struct Aggregate {
    pub last_updated: String,
    pub run_count: u32,
    pub buy_products: Vec<Listing>,
    pub resale_products: Vec<Listing>,
    pub sold_products: Vec<Listing>,
    pub opportunities: Vec<ArbitrageOpportunity>,
    pub total_tracked: usize,
    pub history: HistoryLog,
}

/// The mathematical value of an [`Aggregate`].
pub struct AggregateModel {
    pub last_updated: Seq<char>,
    pub run_count: u32,
    pub buy_products: Seq<ListingModel>,
    pub resale_products: Seq<ListingModel>,
    pub sold_products: Seq<ListingModel>,
    pub opportunities: Seq<OpportunityModel>,
    pub total_tracked: int,
    pub history: Seq<SnapshotModel>,
}

impl View for Aggregate {
    type V = AggregateModel;

    open spec fn view(&self) -> AggregateModel {
        AggregateModel {
            last_updated: self.last_updated@,
            run_count: self.run_count,
            buy_products: self.buy_products.deep_view(),
            resale_products: self.resale_products.deep_view(),
            sold_products: self.sold_products.deep_view(),
            opportunities: self.opportunities.deep_view(),
            total_tracked: self.total_tracked as int,
            history: self.history@,
        }
    }
}

/// Assembles the aggregate document at the end of one run: the fresh
/// snapshot joins the previously persisted history — or an empty one when
/// none could be loaded, which is a normal fallback, not an error — and the
/// oldest entries are dropped until the retention bound holds.
pub fn finalize_run(
    prev: Option<Aggregate>,
    snapshot: RunSnapshot,
    last_updated: String,
    run_count: u32,
    buy_products: Vec<Listing>,
    resale_products: Vec<Listing>,
    sold_products: Vec<Listing>,
    opportunities: Vec<ArbitrageOpportunity>,
    total_tracked: usize,
) -> (a: Aggregate)
    ensures
        a@.history == appended(
            match prev {
                Some(p) => p@.history,
                None => Seq::<SnapshotModel>::empty(),
            },
            snapshot@,
        ),
        a@.last_updated == last_updated@,
        a@.run_count == run_count,
        a@.buy_products == buy_products.deep_view(),
        a@.resale_products == resale_products.deep_view(),
        a@.sold_products == sold_products.deep_view(),
        a@.opportunities == opportunities.deep_view(),
        a@.total_tracked == total_tracked as int,
{
    let mut history = match prev {
        Some(p) => p.history,
        None => HistoryLog::new(),
    };
    history.push_run(snapshot);
    Aggregate {
        last_updated,
        run_count,
        buy_products,
        resale_products,
        sold_products,
        opportunities,
        total_tracked,
        history,
    }
}

/// Appending a bounded history stays bounded.
pub proof fn lemma_appended_bounded(h: Seq<SnapshotModel>, s: SnapshotModel)
    requires
        h.len() <= MAX_HISTORY_RUNS,
    ensures
        appended(h, s).len() <= MAX_HISTORY_RUNS,
{
}

/// The history after a whole sequence of runs, appended in order.
pub open spec fn append_all(h: Seq<SnapshotModel>, ss: Seq<SnapshotModel>) -> Seq<SnapshotModel>
    decreases ss.len(),
{
    if ss.len() == 0 {
        h
    } else {
        append_all(appended(h, ss[0]), ss.drop_first())
    }
}

/// The history bound, as a law: starting from any history within the
/// bound, appending any sequence of snapshots leaves exactly the most
/// recent [`MAX_HISTORY_RUNS`] of the combined chronology, oldest first.
pub proof fn lemma_append_all_keeps_latest(h: Seq<SnapshotModel>, ss: Seq<SnapshotModel>)
    requires
        h.len() <= MAX_HISTORY_RUNS,
    ensures
        ({
            let all = h + ss;
            let keep = if all.len() <= MAX_HISTORY_RUNS {
                all.len() as int
            } else {
                MAX_HISTORY_RUNS as int
            };
            append_all(h, ss) == all.skip(all.len() - keep)
        }),
    decreases ss.len(),
{
    let all = h + ss;
    if ss.len() == 0 {
        assert(all =~= h);
        assert(all.skip(0) =~= all);
    } else {
        let s0 = ss[0];
        let ss1 = ss.drop_first();
        let h1 = appended(h, s0);
        lemma_appended_bounded(h, s0);
        lemma_append_all_keeps_latest(h1, ss1);
        let all1 = h1 + ss1;
        if h.len() < MAX_HISTORY_RUNS {
            assert(h1 =~= h.push(s0));
            assert(all1 =~= all);
        } else {
            assert(h1 =~= h.push(s0).skip(1));
            assert(all1 =~= all.skip(1));
            let keep = MAX_HISTORY_RUNS as int;
            assert(all.len() > MAX_HISTORY_RUNS);
            assert(all1.len() >= MAX_HISTORY_RUNS);
            assert(all1.skip(all1.len() - keep) =~= all.skip(all.len() - keep));
        }
    }
}

} // verus!
