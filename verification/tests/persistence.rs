use arbiscan::codec::{decode_aggregate, decode_seen_set, encode_aggregate, encode_seen_set};
use arbiscan::dedup::{filter_new_products, SeenSet};
use arbiscan::history::{build_run_snapshot, finalize_run, Aggregate, HistoryLog};
use arbiscan::listing::{Listing, Source};

fn listing(name: &str, price: &str, url: &str, source: Source) -> Listing {
    Listing {
        name: name.to_string(),
        price: price.to_string(),
        url: url.to_string(),
        source,
    }
}

fn sample_batches() -> (Vec<Listing>, Vec<Listing>, Vec<Listing>) {
    let buys = vec![listing(
        "iPhone 14 Pro 128GB",
        "$100.00",
        "https://buy/1",
        Source::BuySide,
    )];
    let resale = vec![listing(
        "iPhone 14 Pro 128GB",
        "$180.00",
        "https://resale/1",
        Source::ResaleSide,
    )];
    let pool = vec![
        listing(
            "iPhone 14 Pro 128GB Unlocked",
            "$150.00",
            "https://sold/1",
            Source::ReferenceSoldSide,
        ),
        listing(
            "iPhone 14 Pro 128GB Unlocked",
            "$160.00",
            "https://sold/2",
            Source::ReferenceSoldSide,
        ),
    ];
    (buys, resale, pool)
}

fn aggregate_after_runs(n: u32) -> Aggregate {
    let (buys, resale, pool) = sample_batches();
    let mut agg: Option<Aggregate> = None;
    for run_id in 1..=n {
        let snapshot = build_run_snapshot(
            run_id,
            format!("2026-01-01 00:{:02}:00", run_id % 60),
            &buys,
            &resale,
            &pool,
        );
        let opportunities = snapshot.opportunities.clone();
        agg = Some(finalize_run(
            agg,
            snapshot,
            format!("2026-01-01 00:{:02}:00", run_id % 60),
            run_id,
            buys.clone(),
            resale.clone(),
            pool.clone(),
            opportunities,
            3,
        ));
    }
    agg.unwrap()
}

#[test]
fn snapshot_holds_run_results() {
    let (buys, resale, pool) = sample_batches();
    let snap = build_run_snapshot(7, "2026-01-01 00:00:00".to_string(), &buys, &resale, &pool);
    assert_eq!(snap.run_id, 7);
    assert_eq!(snap.total_buy, 1);
    assert_eq!(snap.total_resale, 1);
    assert_eq!(snap.total_sold, 2);
    assert_eq!(snap.opportunities.len(), 1);
    assert_eq!(snap.opportunities[0].profit_cents, 5500);
    assert!(snap.best_opportunity.is_some());
    assert_eq!(snap.best_opportunity.as_ref().unwrap().profit_cents, 5500);
    assert_eq!(snap.buy_products.len(), 1);
    assert_eq!(snap.resale_products.len(), 1);
}

#[test]
fn history_keeps_most_recent_twenty_after_25_runs() {
    let agg = aggregate_after_runs(25);
    assert_eq!(agg.history.runs.len(), 20);
    // Chronological order, oldest first: runs 6 through 25.
    for (k, snap) in agg.history.runs.iter().enumerate() {
        assert_eq!(snap.run_id, 6 + k as u32);
    }
}

#[test]
fn history_below_bound_is_untrimmed() {
    let agg = aggregate_after_runs(5);
    assert_eq!(agg.history.runs.len(), 5);
    for (k, snap) in agg.history.runs.iter().enumerate() {
        assert_eq!(snap.run_id, 1 + k as u32);
    }
}

#[test]
fn history_push_run_evicts_oldest() {
    let (buys, resale, pool) = sample_batches();
    let mut h = HistoryLog::new();
    for run_id in 1..=21 {
        let snap = build_run_snapshot(
            run_id,
            "2026-01-01 00:00:00".to_string(),
            &buys,
            &resale,
            &pool,
        );
        h.push_run(snap);
    }
    assert_eq!(h.runs.len(), 20);
    assert_eq!(h.runs[0].run_id, 2);
    assert_eq!(h.runs[19].run_id, 21);
}

#[test]
fn aggregate_round_trip_reproduces_history() {
    let agg = aggregate_after_runs(3);
    let encoded = encode_aggregate(&agg);
    let decoded = decode_aggregate(&encoded).expect("a saved aggregate must load");
    assert_eq!(decoded.last_updated, agg.last_updated);
    assert_eq!(decoded.run_count, 3);
    assert_eq!(decoded.total_tracked, agg.total_tracked);
    assert_eq!(decoded.history.runs.len(), agg.history.runs.len());
    for (a, b) in decoded.history.runs.iter().zip(agg.history.runs.iter()) {
        assert_eq!(a.run_id, b.run_id);
        assert_eq!(a.timestamp, b.timestamp);
        assert_eq!(a.total_buy, b.total_buy);
        assert_eq!(a.opportunities.len(), b.opportunities.len());
        assert_eq!(
            a.opportunities[0].profit_cents,
            b.opportunities[0].profit_cents
        );
        assert_eq!(a.opportunities[0].buy_name, b.opportunities[0].buy_name);
        assert_eq!(
            a.opportunities[0].sample_urls,
            b.opportunities[0].sample_urls
        );
        assert_eq!(a.buy_products[0].name, b.buy_products[0].name);
        assert_eq!(a.buy_products[0].margin_bp, b.buy_products[0].margin_bp);
        assert_eq!(a.sold_products[0].url, b.sold_products[0].url);
    }
    // Re-encoding the decoded aggregate reproduces the file exactly.
    let encoded_again = encode_aggregate(&decoded);
    assert_eq!(encoded, encoded_again);
}

#[test]
fn aggregate_decode_rejects_corruption() {
    let agg = aggregate_after_runs(1);
    let mut encoded = encode_aggregate(&agg);
    encoded.truncate(encoded.len() - 1);
    assert!(decode_aggregate(&encoded).is_none());
}

#[test]
fn seen_set_round_trip() {
    let mut seen = SeenSet::new();
    let batch = vec![
        listing("One", "$1", "https://x/1?tracking=9", Source::BuySide),
        listing("Two;Three", "$2", "https://x/2", Source::ReferenceSoldSide),
    ];
    filter_new_products(&batch, &mut seen);
    let encoded = encode_seen_set(&seen);
    let decoded = decode_seen_set(&encoded).expect("a saved seen-set must load");
    assert_eq!(decoded.keys.len(), 2);
    assert_eq!(decoded.keys[0].url, "https://x/1");
    assert_eq!(decoded.keys[0].source, Source::BuySide);
    assert_eq!(decoded.keys[1].url, "https://x/2");
    assert_eq!(decoded.keys[1].source, Source::ReferenceSoldSide);
}

#[test]
fn seen_set_decode_rejects_garbage() {
    let garbage: Vec<char> = "not a seen set".chars().collect();
    assert!(decode_seen_set(&garbage).is_none());
}

#[test]
fn seen_set_decode_rejects_trailing_bytes() {
    let seen = SeenSet::new();
    let mut encoded = encode_seen_set(&seen);
    encoded.push('x');
    assert!(decode_seen_set(&encoded).is_none());
}
