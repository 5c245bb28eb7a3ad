use arbiscan::arbitrage::{create_products_with_comparison, find_arbitrage_opportunities};
use arbiscan::dedup::{deduplicate_products, filter_new_products, SeenSet};
use arbiscan::listing::{Listing, Source};

fn listing(name: &str, price: &str, url: &str, source: Source) -> Listing {
    Listing {
        name: name.to_string(),
        price: price.to_string(),
        url: url.to_string(),
        source,
    }
}

fn sold(name: &str, price: &str, url: &str) -> Listing {
    listing(name, price, url, Source::ReferenceSoldSide)
}

#[test]
fn opportunity_accepted_and_ranked() {
    let buys = vec![
        listing("iPhone 14 Pro 128GB", "$100.00", "https://buy/1", Source::BuySide),
        listing("iPhone 13 Pro 128GB", "$120.00", "https://buy/2", Source::BuySide),
    ];
    let pool = vec![
        sold("iPhone 14 Pro 128GB Unlocked", "$150.00", "https://sold/1"),
        sold("iPhone 14 Pro 128GB Unlocked", "$160.00", "https://sold/2"),
        sold("iPhone 14 Pro 128GB Unlocked", "$140.00", "https://sold/3"),
        sold("iPhone 13 Pro 128GB Unlocked", "$150.00", "https://sold/4"),
        sold("iPhone 13 Pro 128GB Unlocked", "$150.00", "https://sold/5"),
    ];
    let opps = find_arbitrage_opportunities(&buys, &pool);
    assert_eq!(opps.len(), 2);
    // Mean of 150/160/140 is 150: profit 50 dollars, margin 50 percent.
    assert_eq!(opps[0].buy_name, "iPhone 14 Pro 128GB");
    assert_eq!(opps[0].buy_price_cents, 10000);
    assert_eq!(opps[0].sold_mean_cents, 15000);
    assert_eq!(opps[0].sold_count, 3);
    assert_eq!(opps[0].sold_min_cents, 14000);
    assert_eq!(opps[0].sold_max_cents, 16000);
    assert_eq!(opps[0].profit_cents, 5000);
    assert_eq!(opps[0].margin_bp, 5000);
    assert_eq!(opps[0].sample_urls.len(), 3);
    // The 30-dollar-profit cluster ranks below the 50-dollar one.
    assert_eq!(opps[1].buy_name, "iPhone 13 Pro 128GB");
    assert_eq!(opps[1].profit_cents, 3000);
}

#[test]
fn single_similar_sold_yields_no_opportunity() {
    let buys = vec![listing(
        "iPhone 14 Pro 128GB",
        "$100.00",
        "https://buy/1",
        Source::BuySide,
    )];
    let pool = vec![sold(
        "iPhone 14 Pro 128GB Unlocked",
        "$9,000.00",
        "https://sold/1",
    )];
    let opps = find_arbitrage_opportunities(&buys, &pool);
    assert!(opps.is_empty());
}

#[test]
fn low_priced_buy_is_skipped() {
    let buys = vec![listing(
        "iPhone 14 Pro 128GB",
        "$49.99",
        "https://buy/1",
        Source::BuySide,
    )];
    let pool = vec![
        sold("iPhone 14 Pro 128GB Unlocked", "$150.00", "https://sold/1"),
        sold("iPhone 14 Pro 128GB Unlocked", "$160.00", "https://sold/2"),
    ];
    assert!(find_arbitrage_opportunities(&buys, &pool).is_empty());
}

#[test]
fn cheap_sold_items_are_filtered_from_cluster() {
    let buys = vec![listing(
        "iPhone 14 Pro 128GB",
        "$100.00",
        "https://buy/1",
        Source::BuySide,
    )];
    // Accessory-priced sold listings never join a cluster.
    let pool = vec![
        sold("iPhone 14 Pro 128GB case", "$20.00", "https://sold/1"),
        sold("iPhone 14 Pro 128GB cable", "$15.00", "https://sold/2"),
        sold("iPhone 14 Pro 128GB Unlocked", "$150.00", "https://sold/3"),
    ];
    assert!(find_arbitrage_opportunities(&buys, &pool).is_empty());
}

#[test]
fn thin_margin_is_rejected() {
    // Mean 108: profit 8 dollars, margin 8 percent: both gates fail.
    let buys = vec![listing(
        "iPhone 14 Pro 128GB",
        "$100.00",
        "https://buy/1",
        Source::BuySide,
    )];
    let pool = vec![
        sold("iPhone 14 Pro 128GB Unlocked", "$106.00", "https://sold/1"),
        sold("iPhone 14 Pro 128GB Unlocked", "$110.00", "https://sold/2"),
    ];
    assert!(find_arbitrage_opportunities(&buys, &pool).is_empty());
}

#[test]
fn unparseable_buy_price_is_skipped() {
    let buys = vec![listing(
        "iPhone 14 Pro 128GB",
        "Price not found",
        "https://buy/1",
        Source::BuySide,
    )];
    let pool = vec![
        sold("iPhone 14 Pro 128GB Unlocked", "$150.00", "https://sold/1"),
        sold("iPhone 14 Pro 128GB Unlocked", "$160.00", "https://sold/2"),
    ];
    assert!(find_arbitrage_opportunities(&buys, &pool).is_empty());
}

#[test]
fn comparison_records_cover_every_listing() {
    let buys = vec![
        listing("iPhone 14 Pro 128GB", "$100.00", "https://buy/1", Source::BuySide),
        listing("Garden hose", "Price not found", "https://buy/2", Source::BuySide),
    ];
    let pool = vec![
        sold("iPhone 14 Pro 128GB Unlocked", "$150.00", "https://sold/1"),
        sold("iPhone 14 Pro 128GB Unlocked", "$160.00", "https://sold/2"),
    ];
    let cmps = create_products_with_comparison(&buys, &pool);
    assert_eq!(cmps.len(), 2);
    assert_eq!(cmps[0].price_cents, Some(10000));
    assert_eq!(cmps[0].sold_mean_cents, Some(15500));
    assert_eq!(cmps[0].sold_count, Some(2));
    assert_eq!(cmps[0].sold_min_cents, Some(15000));
    assert_eq!(cmps[0].sold_max_cents, Some(16000));
    assert_eq!(cmps[0].profit_cents, Some(5500));
    assert_eq!(cmps[0].margin_bp, Some(5500));
    // An unusable price excludes the listing from profit math, but the
    // listing itself is kept.
    assert_eq!(cmps[1].price_cents, None);
    assert_eq!(cmps[1].sold_mean_cents, None);
    assert_eq!(cmps[1].profit_cents, None);
}

#[test]
fn comparison_profit_may_be_negative() {
    let buys = vec![listing(
        "iPhone 14 Pro 128GB",
        "$200.00",
        "https://buy/1",
        Source::BuySide,
    )];
    let pool = vec![
        sold("iPhone 14 Pro 128GB Unlocked", "$150.00", "https://sold/1"),
        sold("iPhone 14 Pro 128GB Unlocked", "$160.00", "https://sold/2"),
    ];
    let cmps = create_products_with_comparison(&buys, &pool);
    assert_eq!(cmps[0].profit_cents, Some(-4500));
    assert_eq!(cmps[0].margin_bp, Some(-2250));
}

#[test]
fn dedup_keeps_first_per_key_after_name_sort() {
    let batch = vec![
        listing("Zeta phone", "$100", "https://x/item?b=2", Source::BuySide),
        listing("Alpha phone", "$90", "https://x/item?a=1", Source::BuySide),
        listing("Beta phone", "$80", "https://x/other", Source::BuySide),
    ];
    // The first two share the query-less URL; the sort by name puts
    // "Alpha phone" first, so it is the one kept.
    let unique = deduplicate_products(&batch);
    assert_eq!(unique.len(), 2);
    assert_eq!(unique[0].name, "Alpha phone");
    assert_eq!(unique[1].name, "Beta phone");
}

#[test]
fn dedup_sorts_deterministically() {
    let batch = vec![
        listing("b", "$1", "https://x/2", Source::BuySide),
        listing("a", "$1", "https://x/1", Source::BuySide),
        listing("c", "$1", "https://x/3", Source::BuySide),
    ];
    let unique = deduplicate_products(&batch);
    let names: Vec<&str> = unique.iter().map(|l| l.name.as_str()).collect();
    assert_eq!(names, vec!["a", "b", "c"]);
}

#[test]
fn filter_new_partitions_and_records() {
    let mut seen = SeenSet::new();
    let batch = vec![
        listing("One", "$1", "https://x/1", Source::BuySide),
        listing("Two", "$2", "https://x/2", Source::BuySide),
    ];
    let new1 = filter_new_products(&batch, &mut seen);
    assert_eq!(new1.len(), 2);
    assert_eq!(seen.len(), 2);
}

#[test]
fn filter_new_is_idempotent() {
    let mut seen = SeenSet::new();
    let batch = vec![
        listing("One", "$1", "https://x/1?q=1", Source::BuySide),
        listing("Two", "$2", "https://x/2", Source::BuySide),
        listing("One again", "$3", "https://x/1?q=2", Source::BuySide),
    ];
    let new1 = filter_new_products(&batch, &mut seen);
    // The third listing shares the first one's query-less URL.
    assert_eq!(new1.len(), 2);
    // A second pass over the same batch reports nothing new.
    let new2 = filter_new_products(&batch, &mut seen);
    assert!(new2.is_empty());
}

#[test]
fn filter_new_distinguishes_sources() {
    let mut seen = SeenSet::new();
    let batch = vec![
        listing("One", "$1", "https://x/1", Source::BuySide),
        listing("One", "$1", "https://x/1", Source::ReferenceSoldSide),
    ];
    let new1 = filter_new_products(&batch, &mut seen);
    assert_eq!(new1.len(), 2);
}
