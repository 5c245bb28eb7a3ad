//! Fingerprinting and similarity scoring.
//!
//! A listing name is fingerprinted by testing the lower-cased name for
//! substring containment against a fixed, curated vocabulary of device,
//! storage and lock-status tokens; the tokens found, in vocabulary-scan
//! order, are the fingerprint.  Two names are comparable only when both
//! fingerprints are non-empty and both names share a model-family marker;
//! the score is then the fingerprint overlap over the larger fingerprint,
//! expressed in hundredths of a percent.

use vstd::prelude::*;
use vstd::string::StringExecFns;
use crate::listing::Listing;
use crate::text::{chars_of, contains_chars, contains_seq, lower_chars_of, lower_seq};

verus! {

/// Number of tokens in the vocabulary.
pub const VOCAB_LEN: usize = 46;

/// The fixed vocabulary, as token character sequences in scan order.
pub open spec fn vocab() -> Seq<Seq<char>> {
    seq![
        "iphone 16 pro max"@,
        "iphone 16 pro"@,
        "iphone 16"@,
        "iphone 16e"@,
        "iphone 15 pro max"@,
        "iphone 15 pro"@,
        "iphone 15 plus"@,
        "iphone 15"@,
        "iphone 14 pro max"@,
        "iphone 14 pro"@,
        "iphone 14 plus"@,
        "iphone 14"@,
        "iphone 13 pro max"@,
        "iphone 13 pro"@,
        "iphone 13 mini"@,
        "iphone 13"@,
        "iphone 12 pro max"@,
        "iphone 12 pro"@,
        "iphone 12 mini"@,
        "iphone 12"@,
        "iphone se"@,
        "galaxy s24 ultra"@,
        "galaxy s24+"@,
        "galaxy s24"@,
        "galaxy s23 ultra"@,
        "galaxy s23+"@,
        "galaxy s23"@,
        "galaxy z fold"@,
        "galaxy z flip"@,
        "galaxy a54"@,
        "galaxy a34"@,
        "galaxy a14"@,
        "pixel 9 pro xl"@,
        "pixel 9 pro"@,
        "pixel 9"@,
        "pixel 8 pro"@,
        "pixel 8a"@,
        "pixel 8"@,
        "pixel 7 pro"@,
        "pixel 7a"@,
        "pixel 7"@,
        "128gb"@,
        "256gb"@,
        "512gb"@,
        "1tb"@,
        "unlocked"@,
    ]
}

/// The fixed vocabulary of device, storage and lock-status tokens, in scan
/// order.
pub fn vocabulary() -> (v: Vec<&'static str>)
    ensures
        v@.len() == vocab().len(),
        forall|i: int| 0 <= i < v@.len() ==> (#[trigger] v@[i])@ == vocab()[i],
{
    let v: Vec<&'static str> = vec![
        "iphone 16 pro max",
        "iphone 16 pro",
        "iphone 16",
        "iphone 16e",
        "iphone 15 pro max",
        "iphone 15 pro",
        "iphone 15 plus",
        "iphone 15",
        "iphone 14 pro max",
        "iphone 14 pro",
        "iphone 14 plus",
        "iphone 14",
        "iphone 13 pro max",
        "iphone 13 pro",
        "iphone 13 mini",
        "iphone 13",
        "iphone 12 pro max",
        "iphone 12 pro",
        "iphone 12 mini",
        "iphone 12",
        "iphone se",
        "galaxy s24 ultra",
        "galaxy s24+",
        "galaxy s24",
        "galaxy s23 ultra",
        "galaxy s23+",
        "galaxy s23",
        "galaxy z fold",
        "galaxy z flip",
        "galaxy a54",
        "galaxy a34",
        "galaxy a14",
        "pixel 9 pro xl",
        "pixel 9 pro",
        "pixel 9",
        "pixel 8 pro",
        "pixel 8a",
        "pixel 8",
        "pixel 7 pro",
        "pixel 7a",
        "pixel 7",
        "128gb",
        "256gb",
        "512gb",
        "1tb",
        "unlocked",
    ];
    v
}

/// The tokens of `v` contained in the lower-cased name `low`, in the order
/// of `v`.
pub open spec fn tokens_found(v: Seq<Seq<char>>, low: Seq<char>) -> Seq<Seq<char>>
    decreases v.len(),
{
    if v.len() == 0 {
        Seq::empty()
    } else if contains_seq(low, v.last()) {
        tokens_found(v.drop_last(), low).push(v.last())
    } else {
        tokens_found(v.drop_last(), low)
    }
}

/// The fingerprint of a listing name: the vocabulary tokens its lower-cased
/// form contains, in vocabulary-scan order.
pub open spec fn fingerprint_spec(name: Seq<char>) -> Seq<Seq<char>> {
    tokens_found(vocab(), lower_seq(name))
}

/// Scanning one more token appends it exactly when the name contains it.
proof fn lemma_tokens_found_take_step(v: Seq<Seq<char>>, low: Seq<char>, i: int)
    requires
        0 <= i < v.len(),
    ensures
        tokens_found(v.take(i + 1), low) == if contains_seq(low, v[i]) {
            tokens_found(v.take(i), low).push(v[i])
        } else {
            tokens_found(v.take(i), low)
        },
{
    assert(v.take(i + 1).drop_last() =~= v.take(i));
    assert(v.take(i + 1).last() == v[i]);
}

/// Extracts the fingerprint of a listing name: every vocabulary token the
/// lower-cased name contains as a substring, in vocabulary-scan order.
pub fn extract_keywords(name: &str) -> (r: Vec<String>)
    ensures
        r.deep_view() == fingerprint_spec(name@),
        r@.len() <= VOCAB_LEN,
{
    let vs = vocabulary();
    let low = lower_chars_of(name);
    let mut out: Vec<String> = Vec::new();
    let n = vs.len();
    let mut i: usize = 0;
    while i < n
        invariant
            n == vs@.len(),
            n == vocab().len(),
            forall|q: int| 0 <= q < n ==> (#[trigger] vs@[q])@ == vocab()[q],
            low@ == lower_seq(name@),
            i <= n,
            out.deep_view() == tokens_found(vocab().take(i as int), lower_seq(name@)),
            out@.len() <= i,
        decreases n - i,
    {
        let tok: &'static str = vs[i];
        let tokc = chars_of(tok);
        proof {
            lemma_tokens_found_take_step(vocab(), lower_seq(name@), i as int);
        }
        if contains_chars(&low, &tokc) {
            out.push(String::from_str(tok));
        }
        proof {
            assert(out.deep_view() =~= tokens_found(
                vocab().take(i + 1),
                lower_seq(name@),
            ));
        }
        i = i + 1;
    }
    proof {
        assert(vocab().take(n as int) =~= vocab());
    }
    out
}

/// Both names contain the family marker `fam`, case-insensitively.
pub open spec fn both_contain(n1: Seq<char>, n2: Seq<char>, fam: Seq<char>) -> bool {
    contains_seq(lower_seq(n1), fam) && contains_seq(lower_seq(n2), fam)
}

/// The model-family gate: the two names share at least one recognized
/// device-family marker.
pub open spec fn family_gate(n1: Seq<char>, n2: Seq<char>) -> bool {
    both_contain(n1, n2, "iphone"@) || both_contain(n1, n2, "galaxy"@) || both_contain(
        n1,
        n2,
        "pixel"@,
    )
}

/// How many tokens of `a` also occur in `b`.
pub open spec fn overlap_count(a: Seq<Seq<char>>, b: Seq<Seq<char>>) -> nat
    decreases a.len(),
{
    if a.len() == 0 {
        0
    } else if b.contains(a.last()) {
        overlap_count(a.drop_last(), b) + 1
    } else {
        overlap_count(a.drop_last(), b)
    }
}

/// The similarity score of two names, in hundredths of a percent: zero when
/// either fingerprint is empty or the model-family gate fails, else the
/// fingerprint overlap over the larger fingerprint.
pub open spec fn similarity_bp(n1: Seq<char>, n2: Seq<char>) -> nat {
    let f1 = fingerprint_spec(n1);
    let f2 = fingerprint_spec(n2);
    if f1.len() == 0 || f2.len() == 0 {
        0
    } else if !family_gate(n1, n2) {
        0
    } else {
        overlap_count(f1, f2) * 10000 / (if f1.len() >= f2.len() {
            f1.len()
        } else {
            f2.len()
        })
    }
}

/// Whether some element of `v` views to the same characters as `s`.
fn has_string(v: &Vec<String>, s: &String) -> (r: bool)
    ensures
        r == v.deep_view().contains(s@),
{
    let n = v.len();
    let mut i: usize = 0;
    while i < n
        invariant
            n == v@.len(),
            i <= n,
            forall|k: int| 0 <= k < i ==> v.deep_view()[k] != s@,
        decreases n - i,
    {
        if v[i] == *s {
            proof {
                assert(v.deep_view()[i as int] == s@);
            }
            return true;
        }
        i = i + 1;
    }
    proof {
        assert(!v.deep_view().contains(s@));
    }
    false
}

/// Counts the tokens of `a` that also occur in `b`.
fn count_overlap(a: &Vec<String>, b: &Vec<String>) -> (m: usize)
    ensures
        m == overlap_count(a.deep_view(), b.deep_view()),
        m <= a@.len(),
{
    let n = a.len();
    let mut m: usize = 0;
    let mut i: usize = 0;
    while i < n
        invariant
            n == a@.len(),
            i <= n,
            m <= i,
            m == overlap_count(a.deep_view().take(i as int), b.deep_view()),
        decreases n - i,
    {
        proof {
            assert(a.deep_view().take(i + 1).drop_last() =~= a.deep_view().take(i as int));
            assert(a.deep_view().take(i + 1).last() == a.deep_view()[i as int]);
        }
        if has_string(b, &a[i]) {
            m = m + 1;
        }
        i = i + 1;
    }
    proof {
        assert(a.deep_view().take(n as int) =~= a.deep_view());
    }
    m
}

/// Scores the similarity of two listings' names, in hundredths of a percent.
///
/// Zero when either fingerprint is empty or the names share no model-family
/// marker; otherwise the fingerprint overlap over the larger fingerprint.
pub fn similarity_score(l1: &Listing, l2: &Listing) -> (score: u32)
    ensures
        score == similarity_bp(l1@.name, l2@.name),
        score <= 10000,
{
    let fp1 = extract_keywords(l1.name.as_str());
    let fp2 = extract_keywords(l2.name.as_str());
    if fp1.len() == 0 || fp2.len() == 0 {
        return 0;
    }
    let low1 = lower_chars_of(l1.name.as_str());
    let low2 = lower_chars_of(l2.name.as_str());
    let iphone = chars_of("iphone");
    let galaxy = chars_of("galaxy");
    let pixel = chars_of("pixel");
    let gate = (contains_chars(&low1, &iphone) && contains_chars(&low2, &iphone)) || (
    contains_chars(&low1, &galaxy) && contains_chars(&low2, &galaxy)) || (contains_chars(
        &low1,
        &pixel,
    ) && contains_chars(&low2, &pixel));
    if !gate {
        return 0;
    }
    let m = count_overlap(&fp1, &fp2);
    let mx = if fp1.len() >= fp2.len() {
        fp1.len()
    } else {
        fp2.len()
    };
    let score = (m * 10000) / mx;
    proof {
        let mi = m as int;
        let mxi = mx as int;
        assert(score <= 10000) by {
            assert(mi * 10000 <= mxi * 10000) by (nonlinear_arith)
                requires
                    mi <= mxi,
            ;
            assert(mxi * 10000 / mxi == 10000) by (nonlinear_arith)
                requires
                    mxi >= 1,
            ;
            assert(mi * 10000 / mxi <= mxi * 10000 / mxi) by (nonlinear_arith)
                requires
                    mi * 10000 <= mxi * 10000,
                    mxi >= 1,
            ;
        }
    }
    score as u32
}

} // verus!
