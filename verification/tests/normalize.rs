use arbiscan::fingerprint::{extract_keywords, similarity_score, vocabulary};
use arbiscan::listing::{dedup_key, Listing, Source};
use arbiscan::price::parse_price;
use arbiscan::text::truncate_string;

fn listing(name: &str, price: &str, url: &str, source: Source) -> Listing {
    Listing {
        name: name.to_string(),
        price: price.to_string(),
        url: url.to_string(),
        source,
    }
}

#[test]
fn parse_price_dollar_thousands() {
    assert_eq!(parse_price("$1,299.00"), Some(129900));
}

#[test]
fn parse_price_not_found_is_none() {
    assert_eq!(parse_price("Price not found"), None);
}

#[test]
fn parse_price_empty_is_none() {
    assert_eq!(parse_price(""), None);
}

#[test]
fn parse_price_plain_dollars() {
    assert_eq!(parse_price("$50"), Some(5000));
}

#[test]
fn parse_price_trailing_text() {
    assert_eq!(parse_price("$199.99 shipping included"), Some(19999));
}

#[test]
fn parse_price_two_dots_is_none() {
    assert_eq!(parse_price("1.2.3"), None);
}

#[test]
fn parse_price_lone_dot_is_none() {
    assert_eq!(parse_price("$."), None);
}

#[test]
fn parse_price_truncates_sub_cent_digits() {
    assert_eq!(parse_price("49.999"), Some(4999));
}

#[test]
fn parse_price_single_fraction_digit() {
    assert_eq!(parse_price("$7.5"), Some(750));
}

#[test]
fn parse_price_out_of_range_is_none() {
    assert_eq!(parse_price("99999999999999999999"), None);
}

#[test]
fn extract_keywords_scan_order() {
    let kws = extract_keywords("Apple iPhone 14 Pro 128GB Unlocked");
    assert_eq!(
        kws,
        vec![
            "iphone 14 pro".to_string(),
            "iphone 14".to_string(),
            "128gb".to_string(),
            "unlocked".to_string(),
        ]
    );
}

#[test]
fn extract_keywords_empty_for_unknown() {
    let kws = extract_keywords("Garden hose 25ft");
    assert!(kws.is_empty());
}

#[test]
fn vocabulary_is_fixed() {
    let v = vocabulary();
    assert_eq!(v.len(), 46);
    assert_eq!(v[0], "iphone 16 pro max");
    assert_eq!(v[45], "unlocked");
}

#[test]
fn similarity_gate_blocks_cross_family() {
    let a = listing(
        "iPhone 15 Pro Max 256GB Unlocked",
        "$900",
        "https://a/1",
        Source::BuySide,
    );
    let b = listing(
        "Samsung Galaxy S23 256GB Unlocked",
        "$700",
        "https://b/2",
        Source::ReferenceSoldSide,
    );
    assert_eq!(similarity_score(&a, &b), 0);
}

#[test]
fn similarity_score_shared_tokens() {
    let a = listing("iPhone 14 Pro 128GB", "$500", "https://a/1", Source::BuySide);
    let b = listing(
        "iPhone 14 Pro 128GB Unlocked",
        "$600",
        "https://b/2",
        Source::ReferenceSoldSide,
    );
    // Fingerprints: {iphone 14 pro, iphone 14, 128gb} and
    // {iphone 14 pro, iphone 14, 128gb, unlocked}: overlap 3 of max 4.
    assert_eq!(similarity_score(&a, &b), 7500);
}

#[test]
fn similarity_score_partial_overlap() {
    let a = listing("iPhone 14 Pro", "$500", "https://a/1", Source::BuySide);
    let b = listing(
        "iPhone 14 Pro 128GB",
        "$600",
        "https://b/2",
        Source::ReferenceSoldSide,
    );
    // Overlap 2 of max 3: 66.66 percent, in hundredths of a percent.
    assert_eq!(similarity_score(&a, &b), 6666);
}

#[test]
fn similarity_zero_on_empty_fingerprint() {
    let a = listing("Mystery box", "$500", "https://a/1", Source::BuySide);
    let b = listing(
        "iPhone 14 Pro 128GB",
        "$600",
        "https://b/2",
        Source::ReferenceSoldSide,
    );
    assert_eq!(similarity_score(&a, &b), 0);
}

#[test]
fn dedup_key_strips_query() {
    let l = listing(
        "iPhone 14",
        "$500",
        "https://example.com/item/5?ref=tracking",
        Source::BuySide,
    );
    let k = dedup_key(&l);
    assert_eq!(k.url, "https://example.com/item/5");
    assert_eq!(k.source, Source::BuySide);
}

#[test]
fn truncate_string_short_is_identity() {
    assert_eq!(truncate_string("abc", 10), "abc");
}

#[test]
fn truncate_string_long_gets_ellipsis() {
    assert_eq!(truncate_string("abcdefgh", 5), "abcde...");
}
