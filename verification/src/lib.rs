//! Cross-marketplace arbitrage scanner core.
//!
//! Turns noisy listing titles and price strings from three marketplaces into
//! deduplicated, normalized records, matches each buy-side listing against a
//! cluster of reference-sold listings by fingerprint similarity, computes
//! profit statistics over the cluster, ranks the accepted opportunities, and
//! keeps a bounded history of successive runs.  All prices are held as whole
//! cents; all scores as hundredths of a percent.

pub mod arbitrage;
pub mod codec;
pub mod dedup;
pub mod fingerprint;
pub mod history;
pub mod listing;
pub mod price;
pub mod text;
